//! The line classifier: turns one trimmed input line into a structured
//! execution request.
//!
//! A line with a pipe separator becomes a two-stage [`ExecutionRequest::Piped`]
//! request; a line with a redirect symbol becomes a
//! [`ExecutionRequest::Redirected`] request; anything else becomes
//! [`ExecutionRequest::Plain`]. Tokenization is by whitespace with no quoting:
//! a token is a maximal run of non-whitespace characters.

use vstd::prelude::*;
use crate::strutil::{is_space, is_space_char, string_of, subvec};

verus! {

/// The whitespace tokens of a line, defined by folding from the right:
/// a trailing whitespace character closes the current token, a trailing
/// non-whitespace character either extends the last token (when the
/// character before it is also non-whitespace) or starts a new one.
pub open spec fn spec_tokens(s: Seq<char>) -> Seq<Seq<char>>
    decreases s.len(),
{
    if s.len() == 0 {
        Seq::empty()
    } else {
        let c = s.last();
        let rest = spec_tokens(s.drop_last());
        if is_space(c) {
            rest
        } else if s.len() >= 2 && !is_space(s[s.len() - 2]) {
            rest.update(rest.len() - 1, rest.last().push(c))
        } else {
            rest.push(seq![c])
        }
    }
}

/// A line has at least one token exactly when it has a non-whitespace
/// character.
pub proof fn lemma_tokens_nonempty(s: Seq<char>)
    ensures
        spec_tokens(s).len() > 0 <==> exists|j: int| 0 <= j < s.len() && !is_space(s[j]),
    decreases s.len(),
{
    if s.len() == 0 {
    } else {
        lemma_tokens_nonempty(s.drop_last());
        let c = s.last();
        if is_space(c) {
            assert forall|j: int| 0 <= j < s.len() && !is_space(s[j]) implies exists|k: int|
                0 <= k < s.drop_last().len() && !is_space(s.drop_last()[k]) by {
                assert(s.drop_last()[j] == s[j]);
            }
        } else {
            assert(!is_space(s[s.len() - 1]));
        }
    }
}

/// First index of `c` in `s` at or after `i`, or `-1` if there is none.
pub open spec fn spec_find_char_from(s: Seq<char>, c: char, i: int) -> int
    decreases s.len() - i,
{
    if i < 0 || i >= s.len() {
        -1
    } else if s[i] == c {
        i
    } else {
        spec_find_char_from(s, c, i + 1)
    }
}

pub proof fn lemma_find_char_from_props(s: Seq<char>, c: char, i: int)
    requires
        0 <= i <= s.len(),
    ensures
        ({
            let f = spec_find_char_from(s, c, i);
            &&& (f == -1 <==> forall|j: int| i <= j < s.len() ==> s[j] != c)
            &&& (f != -1 ==> i <= f < s.len() && s[f] == c && forall|j: int|
                i <= j < f ==> s[j] != c)
        }),
    decreases s.len() - i,
{
    if i < s.len() && s[i] != c {
        lemma_find_char_from_props(s, c, i + 1);
    }
}

fn find_char_from(s: &Vec<char>, c: char, i: usize) -> (r: Option<usize>)
    requires
        i <= s@.len(),
    ensures
        ({
            let f = spec_find_char_from(s@, c, i as int);
            match r {
                None => f == -1,
                Some(k) => f == k,
            }
        }),
    decreases s@.len() - i,
{
    if i >= s.len() {
        None
    } else if s[i] == c {
        Some(i)
    } else {
        find_char_from(s, c, i + 1)
    }
}

/// First index at or after `i` of a token that is exactly the one-character
/// token `c`, or `-1` if there is none.
pub open spec fn spec_find_symbol_from(toks: Seq<Seq<char>>, c: char, i: int) -> int
    decreases toks.len() - i,
{
    if i < 0 || i >= toks.len() {
        -1
    } else if toks[i] == seq![c] {
        i
    } else {
        spec_find_symbol_from(toks, c, i + 1)
    }
}

/// First token that is exactly the symbol `c`.
pub open spec fn spec_find_symbol(toks: Seq<Seq<char>>, c: char) -> int {
    spec_find_symbol_from(toks, c, 0)
}

fn find_symbol_from(toks: &Vec<Vec<char>>, c: char, i: usize) -> (r: Option<usize>)
    requires
        i <= toks@.len(),
    ensures
        ({
            let f = spec_find_symbol_from(toks.deep_view(), c, i as int);
            match r {
                None => f == -1,
                Some(k) => f == k && k < toks@.len(),
            }
        }),
    decreases toks@.len() - i,
{
    if i >= toks.len() {
        None
    } else {
        let t = &toks[i];
        if t.len() == 1 && t[0] == c {
            proof {
                assert(toks.deep_view()[i as int] =~= seq![c]);
            }
            Some(i)
        } else {
            proof {
                assert(toks.deep_view()[i as int] =~= toks@[i as int]@);
                assert(toks.deep_view()[i as int] != seq![c]);
            }
            find_symbol_from(toks, c, i + 1)
        }
    }
}

/// Owned strings for the tokens `toks[from..to]`.
fn strings_of_range(toks: &Vec<Vec<char>>, from: usize, to: usize) -> (r: Vec<String>)
    requires
        from <= to <= toks@.len(),
    ensures
        r.deep_view() == toks.deep_view().subrange(from as int, to as int),
{
    let mut r: Vec<String> = Vec::new();
    let mut i: usize = from;
    proof {
        assert(r.deep_view() =~= toks.deep_view().subrange(from as int, from as int));
    }
    while i < to
        invariant
            from <= i <= to <= toks@.len(),
            r.deep_view() == toks.deep_view().subrange(from as int, i as int),
        decreases to - i,
    {
        let s = string_of(&toks[i]);
        let ghost s_view = s@;
        proof {
            assert(toks.deep_view()[i as int] =~= toks@[i as int]@);
            assert(s.deep_view() == s_view);
        }
        let ghost old_dv = r.deep_view();
        r.push(s);
        i = i + 1;
        proof {
            let dv = r.deep_view();
            let tg = toks.deep_view().subrange(from as int, i as int);
            assert(toks.deep_view().len() == toks@.len());
            assert(dv.len() == r@.len());
            assert(old_dv.len() == i - 1 - from);
            assert(dv.len() == tg.len());
            assert forall|k: int| 0 <= k < dv.len() implies dv[k] == tg[k] by {
                if k < dv.len() - 1 {
                    assert(dv[k] == old_dv[k]);
                    assert(old_dv[k] == tg[k]);
                } else {
                    assert(dv[k] == s_view);
                    assert(tg[k] == toks.deep_view()[i - 1]);
                }
            }
            assert(dv =~= tg);
        }
    }
    r
}

/// Every token is a non-empty run of characters.
pub proof fn lemma_tokens_each_nonempty(s: Seq<char>)
    ensures
        forall|i: int| 0 <= i < spec_tokens(s).len() ==> #[trigger] spec_tokens(s)[i].len() > 0,
    decreases s.len(),
{
    if s.len() == 0 {
    } else {
        lemma_tokens_each_nonempty(s.drop_last());
        let rest = spec_tokens(s.drop_last());
        let c = s.last();
        if is_space(c) {
        } else if s.len() >= 2 && !is_space(s[s.len() - 2]) {
            lemma_tokens_nonempty(s.drop_last());
            assert(s.drop_last()[s.len() - 2] == s[s.len() - 2]);
            assert(rest.len() > 0);
            let out = rest.update(rest.len() - 1, rest.last().push(c));
            assert forall|i: int| 0 <= i < out.len() implies #[trigger] out[i].len() > 0 by {
                if i < rest.len() - 1 {
                    assert(out[i] == rest[i]);
                } else {
                    assert(out[i] == rest.last().push(c));
                }
            }
        } else {
            let out = rest.push(seq![c]);
            assert forall|i: int| 0 <= i < out.len() implies #[trigger] out[i].len() > 0 by {
                if i < rest.len() {
                    assert(out[i] == rest[i]);
                } else {
                    assert(out[i] == seq![c]);
                }
            }
        }
    }
}

/// The tokens of a line, in order.
pub fn tokenize_chars(s: &Vec<char>) -> (r: Vec<Vec<char>>)
    ensures
        r.deep_view() == spec_tokens(s@),
{
    let mut acc: Vec<Vec<char>> = Vec::new();
    let mut cur: Vec<char> = Vec::new();
    let mut i: usize = 0;
    while i < s.len()
        invariant
            i <= s@.len(),
            cur@.len() == 0 ==> acc.deep_view() == spec_tokens(s@.subrange(0, i as int)) && (i
                == 0 || is_space(s@[i - 1])),
            cur@.len() > 0 ==> i >= 1 && !is_space(s@[i - 1]) && acc.deep_view().push(cur@)
                == spec_tokens(s@.subrange(0, i as int)),
        decreases s@.len() - i,
    {
        let ghost done = s@.subrange(0, i as int);
        let ghost done1 = s@.subrange(0, i as int + 1);
        proof {
            assert(done1.drop_last() =~= done);
            assert(done1.last() == s@[i as int]);
        }
        let c = s[i];
        if is_space_char(c) {
            if cur.len() > 0 {
                let ghost old_acc = acc.deep_view();
                let ghost cur_snap = cur@;
                proof {
                    assert(cur.deep_view() =~= cur_snap);
                }
                acc.push(cur);
                proof {
                    assert(acc.deep_view() =~= old_acc.push(cur_snap));
                }
                cur = Vec::new();
            }
            proof {
                assert(spec_tokens(done1) == spec_tokens(done));
            }
        } else {
            if cur.len() == 0 {
                proof {
                    assert(spec_tokens(done1) == spec_tokens(done).push(seq![s@[i as int]]));
                }
                cur.push(c);
                proof {
                    assert(cur@ =~= seq![s@[i as int]]);
                }
            } else {
                let ghost rest = spec_tokens(done);
                let ghost old_cur = cur@;
                proof {
                    assert(done1.len() >= 2 && !is_space(done1[done1.len() - 2]));
                    assert(spec_tokens(done1) == rest.update(
                        rest.len() - 1,
                        rest.last().push(s@[i as int]),
                    ));
                    assert(rest == acc.deep_view().push(old_cur));
                    assert(rest.last() == old_cur);
                    assert(rest.update(rest.len() - 1, old_cur.push(s@[i as int]))
                        =~= acc.deep_view().push(old_cur.push(s@[i as int])));
                }
                cur.push(c);
            }
        }
        i = i + 1;
    }
    proof {
        assert(s@.subrange(0, s@.len() as int) =~= s@);
    }
    if cur.len() > 0 {
        let ghost old_acc = acc.deep_view();
        let ghost cur_snap = cur@;
        proof {
            assert(cur.deep_view() =~= cur_snap);
        }
        acc.push(cur);
        proof {
            assert(acc.deep_view() =~= old_acc.push(cur_snap));
        }
    }
    acc
}

/// The tokens of a line, as owned strings.
pub fn tokenize(line: &str) -> (r: Vec<String>)
    ensures
        r.deep_view() == spec_tokens(line@),
{
    let cs = crate::strutil::chars_of(line);
    let toks = tokenize_chars(&cs);
    let r = strings_of_range(&toks, 0, toks.len());
    proof {
        assert(toks.deep_view().subrange(0, toks@.len() as int) =~= toks.deep_view());
    }
    r
}

/// Whether a redirection rebinds the child's standard output or its
/// standard input.
#[derive(Clone, Copy, Debug, PartialEq, Eq, Structural)]
pub enum RedirectKind {
    Output,
    Input,
}

/// Why a line could not be classified into a request.
#[derive(Clone, Copy, Debug, PartialEq, Eq, Structural)]
pub enum ClassifyError {
    /// The line has no token at all.
    EmptyLine,
    /// One side of the pipe separator has no token.
    EmptyPipeSide,
    /// A redirect symbol occurs only inside a larger token, never as a
    /// token of its own.
    RedirectSymbolInWord,
    /// The redirect token is the first token, so there is no command.
    MissingCommand,
    /// Nothing follows the redirect token.
    MissingRedirectTarget,
}

/// A structured execution request built from one input line.
#[derive(Debug)]
pub enum ExecutionRequest {
    Plain { command: String, args: Vec<String> },
    Redirected { command: String, args: Vec<String>, direction: RedirectKind, file: String },
    Piped {
        left_command: String,
        left_args: Vec<String>,
        right_command: String,
        right_args: Vec<String>,
    },
}

/// The mathematical shape of an execution request.
pub enum LineShape {
    Plain { command: Seq<char>, args: Seq<Seq<char>> },
    Redirected {
        command: Seq<char>,
        args: Seq<Seq<char>>,
        direction: RedirectKind,
        file: Seq<char>,
    },
    Piped {
        left_command: Seq<char>,
        left_args: Seq<Seq<char>>,
        right_command: Seq<char>,
        right_args: Seq<Seq<char>>,
    },
}

impl View for ExecutionRequest {
    type V = LineShape;

    open spec fn view(&self) -> LineShape {
        match self {
            ExecutionRequest::Plain { command, args } => LineShape::Plain {
                command: command@,
                args: args.deep_view(),
            },
            ExecutionRequest::Redirected { command, args, direction, file } => {
                LineShape::Redirected {
                    command: command@,
                    args: args.deep_view(),
                    direction: *direction,
                    file: file@,
                }
            },
            ExecutionRequest::Piped { left_command, left_args, right_command, right_args } => {
                LineShape::Piped {
                    left_command: left_command@,
                    left_args: left_args.deep_view(),
                    right_command: right_command@,
                    right_args: right_args.deep_view(),
                }
            },
        }
    }
}

/// Classification of a plain line: first token is the command, the rest
/// are its arguments.
pub open spec fn spec_classify_plain(s: Seq<char>) -> Result<LineShape, ClassifyError> {
    let toks = spec_tokens(s);
    if toks.len() == 0 {
        Err(ClassifyError::EmptyLine)
    } else {
        Ok(LineShape::Plain { command: toks[0], args: toks.drop_first() })
    }
}

/// Classification of a piped line: split at the first pipe separator,
/// tokenize each side.
pub open spec fn spec_classify_pipe(s: Seq<char>) -> Result<LineShape, ClassifyError> {
    let i = spec_find_char_from(s, '|', 0);
    let lt = spec_tokens(s.subrange(0, i));
    let rt = spec_tokens(s.subrange(i + 1, s.len() as int));
    if lt.len() == 0 || rt.len() == 0 {
        Err(ClassifyError::EmptyPipeSide)
    } else {
        Ok(LineShape::Piped {
            left_command: lt[0],
            left_args: lt.drop_first(),
            right_command: rt[0],
            right_args: rt.drop_first(),
        })
    }
}

/// Classification around the redirect token at index `i`: everything
/// before it is the command and its arguments, the single token after it
/// is the file; later tokens are ignored.
pub open spec fn spec_redirect_at(toks: Seq<Seq<char>>, i: int, kind: RedirectKind) -> Result<
    LineShape,
    ClassifyError,
> {
    if i == 0 {
        Err(ClassifyError::MissingCommand)
    } else if i + 1 >= toks.len() {
        Err(ClassifyError::MissingRedirectTarget)
    } else {
        Ok(LineShape::Redirected {
            command: toks[0],
            args: toks.subrange(1, i),
            direction: kind,
            file: toks[i + 1],
        })
    }
}

/// Classification of a redirected line. The first `>` token wins; the `<`
/// branch is reached only when no `>` token exists.
pub open spec fn spec_classify_redirect(s: Seq<char>) -> Result<LineShape, ClassifyError> {
    let toks = spec_tokens(s);
    let gi = spec_find_symbol(toks, '>');
    let li = spec_find_symbol(toks, '<');
    if gi >= 0 {
        spec_redirect_at(toks, gi, RedirectKind::Output)
    } else if li >= 0 {
        spec_redirect_at(toks, li, RedirectKind::Input)
    } else {
        Err(ClassifyError::RedirectSymbolInWord)
    }
}

/// What the classifier makes of one raw line: a pipe separator anywhere
/// makes the line a pipe, else a redirect symbol anywhere makes it a
/// redirection, else it is a plain invocation.
pub open spec fn spec_classify(s: Seq<char>) -> Result<LineShape, ClassifyError> {
    if s.contains('|') {
        spec_classify_pipe(s)
    } else if s.contains('>') || s.contains('<') {
        spec_classify_redirect(s)
    } else {
        spec_classify_plain(s)
    }
}

/// Turns one raw input line into an execution request, exactly as
/// [`spec_classify`] describes. A line whose tokens are exhausted by
/// whitespace yields [`ClassifyError::EmptyLine`]; malformed pipe or
/// redirect syntax yields the matching error instead of a request.
pub fn classify_line(line: &str) -> (r: Result<ExecutionRequest, ClassifyError>)
    ensures
        spec_request_result(r) == spec_classify(line@),
{
    let cs = crate::strutil::chars_of(line);
    proof {
        lemma_find_char_from_props(cs@, '|', 0);
        lemma_find_char_from_props(cs@, '>', 0);
        lemma_find_char_from_props(cs@, '<', 0);
    }
    match find_char_from(&cs, '|', 0) {
        Some(pi) => {
            proof {
                assert(cs@.contains('|'));
            }
            let n = cs.len();
            proof {
                assert(pi < cs@.len());
            }
            let left = subvec(&cs, 0, pi);
            let right = subvec(&cs, pi + 1, n);
            let lt = tokenize_chars(&left);
            let rt = tokenize_chars(&right);
            if lt.len() == 0 || rt.len() == 0 {
                Err(ClassifyError::EmptyPipeSide)
            } else {
                let left_command = string_of(&lt[0]);
                let left_args = strings_of_range(&lt, 1, lt.len());
                let right_command = string_of(&rt[0]);
                let right_args = strings_of_range(&rt, 1, rt.len());
                proof {
                    assert(lt.deep_view()[0] =~= lt@[0]@);
                    assert(rt.deep_view()[0] =~= rt@[0]@);
                    assert(lt.deep_view().subrange(1, lt@.len() as int) =~= lt.deep_view()
                        .drop_first());
                    assert(rt.deep_view().subrange(1, rt@.len() as int) =~= rt.deep_view()
                        .drop_first());
                }
                Ok(ExecutionRequest::Piped { left_command, left_args, right_command, right_args })
            }
        },
        None => {
            proof {
                assert(!cs@.contains('|'));
            }
            let gt_pos = find_char_from(&cs, '>', 0);
            let lt_pos = find_char_from(&cs, '<', 0);
            if gt_pos.is_some() || lt_pos.is_some() {
                proof {
                    assert(cs@.contains('>') || cs@.contains('<'));
                }
                let toks = tokenize_chars(&cs);
                let sym = match find_symbol_from(&toks, '>', 0) {
                    Some(gi) => Some((gi, RedirectKind::Output)),
                    None => match find_symbol_from(&toks, '<', 0) {
                        Some(li) => Some((li, RedirectKind::Input)),
                        None => None,
                    },
                };
                match sym {
                    None => Err(ClassifyError::RedirectSymbolInWord),
                    Some((si, kind)) => {
                        let tn = toks.len();
                        proof {
                            assert(si < toks@.len());
                        }
                        if si == 0 {
                            Err(ClassifyError::MissingCommand)
                        } else if si + 1 >= tn {
                            Err(ClassifyError::MissingRedirectTarget)
                        } else {
                            let command = string_of(&toks[0]);
                            let args = strings_of_range(&toks, 1, si);
                            let file = string_of(&toks[si + 1]);
                            proof {
                                assert(toks.deep_view()[0] =~= toks@[0]@);
                                assert(toks.deep_view()[si + 1] =~= toks@[si + 1]@);
                            }
                            Ok(ExecutionRequest::Redirected { command, args, direction: kind, file })
                        }
                    },
                }
            } else {
                proof {
                    assert(!cs@.contains('>') && !cs@.contains('<'));
                }
                let toks = tokenize_chars(&cs);
                if toks.len() == 0 {
                    Err(ClassifyError::EmptyLine)
                } else {
                    let command = string_of(&toks[0]);
                    let args = strings_of_range(&toks, 1, toks.len());
                    proof {
                        assert(toks.deep_view()[0] =~= toks@[0]@);
                        assert(toks.deep_view().subrange(1, toks@.len() as int) =~= toks.deep_view()
                            .drop_first());
                    }
                    Ok(ExecutionRequest::Plain { command, args })
                }
            }
        },
    }
}

/// A non-blank line without a pipe separator and without redirect symbols
/// is always classified as a plain invocation whose command is the first
/// whitespace-delimited token and whose arguments are the remaining
/// tokens, in order.
pub proof fn lemma_plain_line(s: Seq<char>)
    requires
        !s.contains('|'),
        !s.contains('>'),
        !s.contains('<'),
        exists|j: int| 0 <= j < s.len() && !is_space(s[j]),
    ensures
        spec_classify(s) == Ok::<LineShape, ClassifyError>(
            LineShape::Plain { command: spec_tokens(s)[0], args: spec_tokens(s).drop_first() },
        ),
{
    lemma_tokens_nonempty(s);
}

/// When a line (without a pipe separator) has a `>` token that is neither
/// first nor last, the redirect target is exactly the token immediately
/// following the first `>` token; every later token is ignored.
pub proof fn lemma_redirect_takes_first_target(s: Seq<char>)
    requires
        !s.contains('|'),
        s.contains('>'),
        ({
            let gi = spec_find_symbol(spec_tokens(s), '>');
            1 <= gi && gi + 1 < spec_tokens(s).len()
        }),
    ensures
        ({
            let toks = spec_tokens(s);
            let gi = spec_find_symbol(toks, '>');
            spec_classify(s) == Ok::<LineShape, ClassifyError>(
                LineShape::Redirected {
                    command: toks[0],
                    args: toks.subrange(1, gi),
                    direction: RedirectKind::Output,
                    file: toks[gi + 1],
                },
            )
        }),
{
}

/// Whatever request a line classifies into, no command name in it is
/// empty, and a redirection always carries a non-empty file name: every
/// such field is a whitespace token.
pub proof fn lemma_request_names_nonempty(s: Seq<char>)
    ensures
        (spec_classify(s) matches Ok(shape) ==> match shape {
            LineShape::Plain { command, .. } => command.len() > 0,
            LineShape::Redirected { command, file, .. } => command.len() > 0 && file.len() > 0,
            LineShape::Piped { left_command, right_command, .. } => left_command.len() > 0
                && right_command.len() > 0,
        }),
{
    if s.contains('|') {
        let i = spec_find_char_from(s, '|', 0);
        lemma_tokens_each_nonempty(s.subrange(0, i));
        lemma_tokens_each_nonempty(s.subrange(i + 1, s.len() as int));
    } else {
        lemma_tokens_each_nonempty(s);
    }
}

/// The shape of a classification result.
pub open spec fn spec_request_result(r: Result<ExecutionRequest, ClassifyError>) -> Result<
    LineShape,
    ClassifyError,
> {
    match r {
        Ok(req) => Ok(req@),
        Err(e) => Err(e),
    }
}

} // verus!
