use vstd::prelude::*;

use vstd::slice::{slice_subrange, slice_to_vec};
use vstd::string::StringSliceAdditionalSpecFns;

use crate::kernel::StringSearch;
use crate::occurrence::{matches_at, lemma_matches_in_suffix};

verus! {

/// One element of a compiled LIKE pattern.
#[derive(Debug)]
pub enum Token {
    /// Bytes that must appear as they are.
    Literal(Vec<u8>),
    /// Exactly this many codepoints (one `_` each).
    Skip(usize),
    /// Any run of bytes, the empty one included (`%`).
    Any,
}

/// What a token stands for.
pub enum TokenModel {
    Literal(Seq<u8>),
    Skip(nat),
    Any,
}

impl View for Token {
    type V = TokenModel;

    open spec fn view(&self) -> TokenModel {
        match self {
            Token::Literal(l) => TokenModel::Literal(l@),
            Token::Skip(n) => TokenModel::Skip(*n as nat),
            Token::Any => TokenModel::Any,
        }
    }
}

/// The models of a sequence of tokens.
pub open spec fn tokens_model(v: Seq<Token>) -> Seq<TokenModel> {
    v.map_values(|t: Token| t@)
}

/// Options of the LIKE compiler.
#[derive(Debug, Clone, Copy)]
pub struct CompileOptions {
    /// `_` is an ordinary byte of a literal instead of a one-codepoint wildcard.
    pub treat_underscore_as_literal: bool,
    /// An `_` inside a literal is handed to the kernel, which may treat it as matching any byte.
    pub literal_underscore_is_wildcard: bool,
}

impl Default for CompileOptions {
    fn default() -> (r: Self)
        ensures
            !r.treat_underscore_as_literal,
            !r.literal_underscore_is_wildcard,
    {
        CompileOptions { treat_underscore_as_literal: false, literal_underscore_is_wildcard: false }
    }
}

pub open spec fn is_percent(c: u8) -> bool {
    c == 0x25u8
}

pub open spec fn is_underscore(c: u8) -> bool {
    c == 0x5fu8
}

/// `c` is a wildcard of the LIKE syntax under the given option.
pub open spec fn is_wild_byte(c: u8, underscore_literal: bool) -> bool {
    is_percent(c) || (is_underscore(c) && !underscore_literal)
}

pub open spec fn is_any(t: TokenModel) -> bool {
    t == TokenModel::Any
}

pub open spec fn is_skip(t: TokenModel) -> bool {
    match t {
        TokenModel::Skip(_) => true,
        _ => false,
    }
}

pub open spec fn is_literal(t: TokenModel) -> bool {
    match t {
        TokenModel::Literal(_) => true,
        _ => false,
    }
}

pub open spec fn skip_count(t: TokenModel) -> nat {
    match t {
        TokenModel::Skip(n) => n,
        _ => 0,
    }
}

/// Appends the token of wildcard `c`: a `%` after an `Any` adds nothing, and an `_` after a
/// `Skip` adds one to its count.
pub open spec fn push_wild(toks: Seq<TokenModel>, c: u8) -> Seq<TokenModel> {
    if is_percent(c) {
        if toks.len() > 0 && is_any(toks.last()) {
            toks
        } else {
            toks.push(TokenModel::Any)
        }
    } else {
        if toks.len() > 0 && is_skip(toks.last()) {
            toks.drop_last().push(TokenModel::Skip(skip_count(toks.last()) + 1))
        } else {
            toks.push(TokenModel::Skip(1))
        }
    }
}

/// Closes a pending literal; an empty one is dropped.
pub open spec fn flush(toks: Seq<TokenModel>, lit: Seq<u8>) -> Seq<TokenModel> {
    if lit.len() > 0 {
        toks.push(TokenModel::Literal(lit))
    } else {
        toks
    }
}

/// The tokens closed and the literal pending after the first `i` bytes of `p`.
pub open spec fn scan(p: Seq<u8>, underscore_literal: bool, i: nat) -> (Seq<TokenModel>, Seq<u8>)
    decreases i,
{
    if i == 0 || i > p.len() {
        (Seq::empty(), Seq::empty())
    } else {
        let (t, l) = scan(p, underscore_literal, (i - 1) as nat);
        let c = p[i - 1];
        if is_wild_byte(c, underscore_literal) {
            (push_wild(flush(t, l), c), Seq::empty())
        } else {
            (t, l.push(c))
        }
    }
}

/// The tokens of LIKE pattern `p`.
pub open spec fn tokenize(p: Seq<u8>, underscore_literal: bool) -> Seq<TokenModel> {
    let (t, l) = scan(p, underscore_literal, p.len());
    flush(t, l)
}

/// The least number of bytes a text needs to match: the literals' lengths plus the skips.
pub open spec fn min_len_of(toks: Seq<TokenModel>) -> nat
    decreases toks.len(),
{
    if toks.len() == 0 {
        0
    } else {
        min_len_of(toks.drop_last()) + match toks.last() {
            TokenModel::Literal(l) => l.len(),
            TokenModel::Skip(n) => n,
            TokenModel::Any => 0,
        }
    }
}

/// The literals among `toks`, in order.
pub open spec fn literals_of(toks: Seq<TokenModel>) -> Seq<Seq<u8>>
    decreases toks.len(),
{
    if toks.len() == 0 {
        Seq::empty()
    } else {
        match toks.last() {
            TokenModel::Literal(l) => literals_of(toks.drop_last()).push(l),
            _ => literals_of(toks.drop_last()),
        }
    }
}

/// No empty literal or empty skip, and no two `Any`, two `Skip` or two literals side by side.
pub open spec fn tokens_wf(toks: Seq<TokenModel>) -> bool {
    &&& forall|i: int|
        0 <= i < toks.len() ==> match #[trigger] toks[i] {
            TokenModel::Literal(l) => l.len() > 0,
            TokenModel::Skip(n) => n >= 1,
            TokenModel::Any => true,
        }
    &&& forall|i: int|
        0 <= i < toks.len() - 1 ==> !(is_any(#[trigger] toks[i]) && is_any(toks[i + 1])) && !(
        is_skip(toks[i]) && is_skip(toks[i + 1])) && !(is_literal(toks[i]) && is_literal(
            toks[i + 1],
        ))
}

/// A LIKE pattern compiled for kernel `S`: its tokens, the least text length that can match,
/// and one kernel configuration and state per literal, in the literals' order.
pub struct Pattern<S: StringSearch> {
    tokens: Vec<Token>,
    min_len: usize,
    literal_configs: Vec<S::Config>,
    literal_states: Vec<S::State>,
    literal_underscore_is_wildcard: bool,
}

impl<S: StringSearch> Pattern<S> {
    /// The tokens.
    pub closed spec fn tokens_spec(&self) -> Seq<TokenModel> {
        tokens_model(self.tokens@)
    }

    pub closed spec fn min_len_spec(&self) -> nat {
        self.min_len as nat
    }

    /// Whether an `_` inside a literal matches any byte.
    pub closed spec fn underscore_wild(&self) -> bool {
        self.literal_underscore_is_wildcard && S::underscore_wild()
    }

    pub closed spec fn wf(&self) -> bool {
        let toks = tokens_model(self.tokens@);
        &&& tokens_wf(toks)
        &&& self.min_len == min_len_of(toks)
        &&& configs_built::<S>(self.literal_configs@, self.literal_states@, literals_of(toks))
    }
}

/// Every run of non-wildcard bytes of `p` is a pattern that kernel `S` accepts.
pub open spec fn literals_accepted<S: StringSearch>(p: Seq<u8>, underscore_literal: bool) -> bool {
    forall|i: int, j: int|
        0 <= i < j <= p.len() && (forall|k: int| i <= k < j ==> !is_wild_byte(p[k], underscore_literal))
            ==> S::accepts(#[trigger] p.subrange(i, j))
}

proof fn lemma_push_token(t: Seq<TokenModel>, x: TokenModel)
    ensures
        min_len_of(t.push(x)) == min_len_of(t) + match x {
            TokenModel::Literal(l) => l.len(),
            TokenModel::Skip(n) => n,
            TokenModel::Any => 0,
        },
        literals_of(t.push(x)) == match x {
            TokenModel::Literal(l) => literals_of(t).push(l),
            _ => literals_of(t),
        },
{
    assert(t.push(x).drop_last() =~= t);
}

proof fn lemma_flush(t: Seq<TokenModel>, l: Seq<u8>)
    requires
        tokens_wf(t),
        t.len() == 0 || !is_literal(t.last()),
    ensures
        tokens_wf(flush(t, l)),
        min_len_of(flush(t, l)) == min_len_of(t) + l.len(),
        literals_of(flush(t, l)) == if l.len() > 0 {
            literals_of(t).push(l)
        } else {
            literals_of(t)
        },
{
    if l.len() > 0 {
        lemma_push_token(t, TokenModel::Literal(l));
        let u = flush(t, l);
        assert forall|i: int| 0 <= i < u.len() - 1 implies !(is_any(#[trigger] u[i]) && is_any(u[i + 1]))
            && !(is_skip(u[i]) && is_skip(u[i + 1])) && !(is_literal(u[i]) && is_literal(u[i + 1])) by {
            if i < t.len() - 1 {
                assert(u[i] == t[i] && u[i + 1] == t[i + 1]);
            } else {
                assert(u[i] == t.last());
            }
        }
        assert forall|i: int| 0 <= i < u.len() implies match #[trigger] u[i] {
            TokenModel::Literal(l) => l.len() > 0,
            TokenModel::Skip(n) => n >= 1,
            TokenModel::Any => true,
        } by {
            if i < t.len() {
                assert(u[i] == t[i]);
            }
        }
    }
}

proof fn lemma_push_wild(t: Seq<TokenModel>, c: u8)
    requires
        tokens_wf(t),
        is_percent(c) || is_underscore(c),
    ensures
        tokens_wf(push_wild(t, c)),
        push_wild(t, c).len() > 0 && !is_literal(push_wild(t, c).last()),
        min_len_of(push_wild(t, c)) == min_len_of(t) + if is_percent(c) {
            0nat
        } else {
            1nat
        },
        literals_of(push_wild(t, c)) == literals_of(t),
        is_underscore(c) && !is_percent(c) ==> is_skip(push_wild(t, c).last()) && skip_count(
            push_wild(t, c).last(),
        ) <= min_len_of(push_wild(t, c)),
{
    let u = push_wild(t, c);
    if is_percent(c) {
        if !(t.len() > 0 && is_any(t.last())) {
            lemma_push_token(t, TokenModel::Any);
            assert forall|i: int| 0 <= i < u.len() - 1 implies !(is_any(#[trigger] u[i]) && is_any(
                u[i + 1],
            )) && !(is_skip(u[i]) && is_skip(u[i + 1])) && !(is_literal(u[i]) && is_literal(
                u[i + 1],
            )) by {
                if i < t.len() - 1 {
                    assert(u[i] == t[i] && u[i + 1] == t[i + 1]);
                } else {
                    assert(u[i] == t.last());
                }
            }
            assert forall|i: int| 0 <= i < u.len() implies match #[trigger] u[i] {
                TokenModel::Literal(l) => l.len() > 0,
                TokenModel::Skip(n) => n >= 1,
                TokenModel::Any => true,
            } by {
                if i < t.len() {
                    assert(u[i] == t[i]);
                }
            }
        }
    } else if t.len() > 0 && is_skip(t.last()) {
        let d = t.drop_last();
        let n = skip_count(t.last());
        lemma_push_token(d, TokenModel::Skip(n + 1));
        lemma_push_token(d, TokenModel::Skip(n));
        assert(d.push(TokenModel::Skip(n)) =~= t);
        assert forall|i: int| 0 <= i < u.len() - 1 implies !(is_any(#[trigger] u[i]) && is_any(
            u[i + 1],
        )) && !(is_skip(u[i]) && is_skip(u[i + 1])) && !(is_literal(u[i]) && is_literal(u[i + 1])) by {
            assert(u[i] == t[i]);
            if i + 1 < t.len() - 1 {
                assert(u[i + 1] == t[i + 1]);
            } else {
                assert(t[i + 1] == t.last());
            }
        }
        assert forall|i: int| 0 <= i < u.len() implies match #[trigger] u[i] {
            TokenModel::Literal(l) => l.len() > 0,
            TokenModel::Skip(n) => n >= 1,
            TokenModel::Any => true,
        } by {
            if i < t.len() - 1 {
                assert(u[i] == t[i]);
            }
        }
    } else {
        lemma_push_token(t, TokenModel::Skip(1));
        assert forall|i: int| 0 <= i < u.len() - 1 implies !(is_any(#[trigger] u[i]) && is_any(
            u[i + 1],
        )) && !(is_skip(u[i]) && is_skip(u[i + 1])) && !(is_literal(u[i]) && is_literal(u[i + 1])) by {
            if i < t.len() - 1 {
                assert(u[i] == t[i] && u[i + 1] == t[i + 1]);
            } else {
                assert(u[i] == t.last());
            }
        }
        assert forall|i: int| 0 <= i < u.len() implies match #[trigger] u[i] {
            TokenModel::Literal(l) => l.len() > 0,
            TokenModel::Skip(n) => n >= 1,
            TokenModel::Any => true,
        } by {
            if i < t.len() {
                assert(u[i] == t[i]);
            }
        }
    }
}

/// `configs[i]` searches for `lits[i]` and `states[i]` was built from it.
pub open spec fn configs_built<S: StringSearch>(configs: Seq<S::Config>, states: Seq<S::State>, lits: Seq<Seq<u8>>) -> bool {
    &&& configs.len() == lits.len()
    &&& states.len() == lits.len()
    &&& forall|i: int|
        0 <= i < configs.len() ==> S::pattern_of(&#[trigger] configs[i]) == lits[i] && S::state_ok(
            &configs[i],
            &states[i],
        )
}

/// `config_factory` can be called on any literal and returns a configuration that searches for
/// that literal.
pub open spec fn factory_ok<S: StringSearch, F: Fn(&[u8]) -> S::Config>(config_factory: &F) -> bool {
    &&& forall|l: &[u8]| #[trigger] config_factory.requires((l,))
    &&& forall|l: &[u8], c: S::Config| #[trigger] config_factory.ensures((l,), c) ==> S::pattern_of(&c) == l@
}

/// Closes the pending literal `bytes[start..end]`, if it is not empty: appends its token, its
/// kernel configuration and its state.
fn close_literal<S: StringSearch, F: Fn(&[u8]) -> S::Config>(
    tokens: &mut Vec<Token>,
    configs: &mut Vec<S::Config>,
    states: &mut Vec<S::State>,
    min_len: &mut usize,
    bytes: &[u8],
    start: usize,
    end: usize,
    config_factory: &F,
)
    requires
        factory_ok::<S, F>(config_factory),
        start <= end <= bytes@.len(),
        *old(min_len) + (end - start) <= end,
        start < end ==> S::accepts(bytes@.subrange(start as int, end as int)),
    ensures
        tokens_model(final(tokens)@) == flush(
            tokens_model(old(tokens)@),
            bytes@.subrange(start as int, end as int),
        ),
        *final(min_len) == *old(min_len) + (end - start),
        final(configs)@.len() == old(configs)@.len() + if start < end {
            1int
        } else {
            0int
        },
        final(states)@.len() == final(configs)@.len() - old(configs)@.len() + old(states)@.len(),
        forall|i: int|
            0 <= i < old(configs)@.len() ==> final(configs)@[i] == old(configs)@[i],
        forall|i: int|
            0 <= i < old(states)@.len() ==> final(states)@[i] == old(states)@[i],
        start < end ==> S::pattern_of(&final(configs)@[old(configs)@.len() as int]) == bytes@.subrange(
            start as int,
            end as int,
        ) && S::state_ok(
            &final(configs)@[old(configs)@.len() as int],
            &final(states)@[old(states)@.len() as int],
        ),
{
    if start < end {
        let lit = slice_to_vec(slice_subrange(bytes, start, end));
        let config = config_factory(lit.as_slice());
        let state = S::build(&config);
        let ghost old_tokens = tokens@;
        tokens.push(Token::Literal(lit));
        assert(tokens_model(tokens@) =~= tokens_model(old_tokens).push(TokenModel::Literal(lit@)));
        configs.push(config);
        states.push(state);
        *min_len = *min_len + (end - start);
    } else {
        assert(bytes@.subrange(start as int, end as int).len() == 0);
    }
}

/// Appends the token of wildcard byte `c` (`%` or `_`).
fn push_wildcard(tokens: &mut Vec<Token>, min_len: &mut usize, c: u8, limit: usize)
    requires
        is_percent(c) || is_underscore(c),
        tokens_wf(tokens_model(old(tokens)@)),
        *old(min_len) == min_len_of(tokens_model(old(tokens)@)),
        *old(min_len) < limit,
    ensures
        tokens_model(final(tokens)@) == push_wild(tokens_model(old(tokens)@), c),
        *final(min_len) == min_len_of(tokens_model(final(tokens)@)),
{
    let ghost t = tokens_model(tokens@);
    proof {
        lemma_push_wild(t, c);
    }
    let len = tokens.len();
    if c == 0x25u8 {
        if len > 0 && matches!(tokens[len - 1], Token::Any) {
            assert(is_any(t.last()));
        } else {
            tokens.push(Token::Any);
            assert(tokens_model(tokens@) =~= t.push(TokenModel::Any));
        }
    } else {
        *min_len = *min_len + 1;
        if len > 0 && matches!(tokens[len - 1], Token::Skip(_)) {
            let last = tokens.pop();
            match last {
                Some(Token::Skip(n)) => {
                    assert(tokens_model(tokens@) =~= t.drop_last());
                    proof {
                        lemma_push_token(t.drop_last(), TokenModel::Skip(n as nat));
                        assert(t.drop_last().push(TokenModel::Skip(n as nat)) =~= t);
                    }
                    tokens.push(Token::Skip(n + 1));
                    assert(tokens_model(tokens@) =~= t.drop_last().push(TokenModel::Skip((n + 1) as nat)));
                },
                _ => {
                    assert(false);
                },
            }
        } else {
            tokens.push(Token::Skip(1));
            assert(tokens_model(tokens@) =~= t.push(TokenModel::Skip(1)));
        }
    }
}

#[verifier::spinoff_prover]
/// Compiles LIKE pattern `pattern` for kernel `S`: `%` becomes `Any`, `_` becomes a one-codepoint
/// `Skip` (unless `treat_underscore_as_literal`), every other byte extends a literal, and each
/// literal gets its kernel configuration from `config_factory` and its state from the kernel.
pub fn compile_pattern_with_options<S: StringSearch, F: Fn(&[u8]) -> S::Config>(
    pattern: &str,
    options: CompileOptions,
    config_factory: F,
) -> (r: Pattern<S>)
    requires
        factory_ok::<S, F>(&config_factory),
        options.literal_underscore_is_wildcard ==> options.treat_underscore_as_literal,
        literals_accepted::<S>(pattern.spec_bytes(), options.treat_underscore_as_literal),
    ensures
        r.wf(),
        r.tokens_spec() == tokenize(pattern.spec_bytes(), options.treat_underscore_as_literal),
        r.underscore_wild() == (options.literal_underscore_is_wildcard && S::underscore_wild()),
{
    let bytes = pattern.as_bytes();
    let ghost p = bytes@;
    let ul = options.treat_underscore_as_literal;
    let n = bytes.len();
    let mut tokens: Vec<Token> = Vec::new();
    let mut literal_configs: Vec<S::Config> = Vec::new();
    let mut literal_states: Vec<S::State> = Vec::new();
    let mut start_idx: usize = 0;
    let mut min_len: usize = 0;
    let mut idx: usize = 0;
    assert(tokens_model(tokens@) =~= Seq::<TokenModel>::empty());
    assert(p.subrange(0, 0) =~= Seq::<u8>::empty());
    while idx < n
        invariant
            n == p.len(),
            p == pattern.spec_bytes(),
            bytes@ == p,
            ul == options.treat_underscore_as_literal,
            literals_accepted::<S>(p, ul),
            factory_ok::<S, F>(&config_factory),
            start_idx <= idx <= n,
            scan(p, ul, idx as nat).0 == tokens_model(tokens@),
            scan(p, ul, idx as nat).1 == p.subrange(start_idx as int, idx as int),
            forall|k: int| start_idx <= k < idx ==> !is_wild_byte(p[k], ul),
            tokens_wf(tokens_model(tokens@)),
            tokens@.len() == 0 || !is_literal(tokens_model(tokens@).last()),
            min_len == min_len_of(tokens_model(tokens@)),
            min_len + (idx - start_idx) <= idx,
            literal_configs@.len() == literals_of(tokens_model(tokens@)).len(),
            literal_states@.len() == literals_of(tokens_model(tokens@)).len(),
            configs_built::<S>(literal_configs@, literal_states@, literals_of(tokens_model(tokens@))),
        decreases n - idx,
    {
        let c = bytes[idx];
        let ghost t = tokens_model(tokens@);
        let ghost l = p.subrange(start_idx as int, idx as int);
        let ghost old_configs = literal_configs@;
        let ghost old_states = literal_states@;
        if c == 0x25u8 || (c == 0x5fu8 && !ul) {
            proof {
                lemma_flush(t, l);
                if start_idx < idx {
                    assert(S::accepts(p.subrange(start_idx as int, idx as int)));
                }
            }
            close_literal::<S, F>(
                &mut tokens,
                &mut literal_configs,
                &mut literal_states,
                &mut min_len,
                bytes,
                start_idx,
                idx,
                &config_factory,
            );
            assert forall|i: int| 0 <= i < literal_configs@.len() implies S::pattern_of(
                &#[trigger] literal_configs@[i],
            ) == literals_of(tokens_model(tokens@))[i] && S::state_ok(
                &literal_configs@[i],
                &literal_states@[i],
            ) by {
                assert(tokens_model(tokens@) == flush(t, l));
                if i < old_configs.len() {
                    assert(literal_configs@[i] == old_configs[i]);
                    assert(S::pattern_of(&old_configs[i]) == literals_of(t)[i]);
                    assert(S::state_ok(&old_configs[i], &old_states[i]));
                } else {
                    assert(literals_of(tokens_model(tokens@)) == literals_of(t).push(l));
                }
            }
            let ghost f = tokens_model(tokens@);
            assert(literal_configs@.len() == literals_of(f).len());
            assert(literal_states@.len() == literals_of(f).len());
            assert(configs_built::<S>(literal_configs@, literal_states@, literals_of(f)));
            proof {
                lemma_push_wild(f, c);
            }
            push_wildcard(&mut tokens, &mut min_len, c, idx + 1);
            assert(literals_of(tokens_model(tokens@)) == literals_of(f));
            start_idx = idx + 1;
            assert(p.subrange(start_idx as int, idx + 1) =~= Seq::<u8>::empty());
        } else {
            assert(p.subrange(start_idx as int, idx + 1) =~= l.push(c));
            assert forall|i: int| 0 <= i < literal_configs@.len() implies S::pattern_of(
                &#[trigger] literal_configs@[i],
            ) == literals_of(tokens_model(tokens@))[i] && S::state_ok(
                &literal_configs@[i],
                &literal_states@[i],
            ) by {
                assert(literal_configs@[i] == old_configs[i]);
                assert(S::pattern_of(&old_configs[i]) == literals_of(t)[i]);
                assert(S::state_ok(&old_configs[i], &old_states[i]));
            }
            assert(configs_built::<S>(literal_configs@, literal_states@, literals_of(tokens_model(tokens@))));
        }
        idx += 1;
    }
    let ghost t = tokens_model(tokens@);
    let ghost l = p.subrange(start_idx as int, n as int);
    let ghost old_configs = literal_configs@;
    let ghost old_states = literal_states@;
    proof {
        lemma_flush(t, l);
        if start_idx < n {
            assert(S::accepts(p.subrange(start_idx as int, n as int)));
        }
    }
    close_literal::<S, F>(
        &mut tokens,
        &mut literal_configs,
        &mut literal_states,
        &mut min_len,
        bytes,
        start_idx,
        n,
        &config_factory,
    );
    assert forall|i: int| 0 <= i < literal_configs@.len() implies S::pattern_of(
        &#[trigger] literal_configs@[i],
    ) == literals_of(tokens_model(tokens@))[i] && S::state_ok(
        &literal_configs@[i],
        &literal_states@[i],
    ) by {
        assert(tokens_model(tokens@) == flush(t, l));
        if i < old_configs.len() {
            assert(literal_configs@[i] == old_configs[i]);
            assert(S::pattern_of(&old_configs[i]) == literals_of(t)[i]);
            assert(S::state_ok(&old_configs[i], &old_states[i]));
        } else {
            assert(literals_of(tokens_model(tokens@)) == literals_of(t).push(l));
        }
    }
    assert(configs_built::<S>(literal_configs@, literal_states@, literals_of(tokens_model(tokens@))));
    assert(min_len == min_len_of(tokens_model(tokens@)));
    assert(tokens_wf(tokens_model(tokens@)));
    Pattern {
        tokens,
        min_len,
        literal_configs,
        literal_states,
        literal_underscore_is_wildcard: options.literal_underscore_is_wildcard,
    }
}

/// Compiles `pattern` with the default options: `%` and `_` are both wildcards.
pub fn compile_pattern<S: StringSearch, F: Fn(&[u8]) -> S::Config>(pattern: &str, config_factory: F) -> (r:
    Pattern<S>)
    requires
        factory_ok::<S, F>(&config_factory),
        literals_accepted::<S>(pattern.spec_bytes(), false),
    ensures
        r.wf(),
        r.tokens_spec() == tokenize(pattern.spec_bytes(), false),
        !r.underscore_wild(),
{
    compile_pattern_with_options(pattern, CompileOptions::default(), config_factory)
}

/// The width in bytes of the codepoint that starts at `p`: what its lead byte announces, cut
/// at the end of `text`.
pub open spec fn char_width(text: Seq<u8>, p: int) -> int {
    let b = text[p];
    let w = if b < 0x80u8 {
        1int
    } else if b >= 0xf0u8 {
        4int
    } else if b >= 0xe0u8 {
        3int
    } else if b >= 0xc0u8 {
        2int
    } else {
        1int
    };
    if p + w <= text.len() {
        w
    } else {
        text.len() - p
    }
}

/// Where `n` codepoints that start at `p` end, if `text` holds that many.
pub open spec fn skip_end(text: Seq<u8>, p: int, n: nat) -> Option<int>
    decreases n,
{
    if n == 0 {
        Some(p)
    } else if p < 0 || p >= text.len() {
        None
    } else {
        skip_end(text, p + char_width(text, p), (n - 1) as nat)
    }
}

/// `lo <= m <= hi`.
pub open spec fn between(lo: int, m: int, hi: int) -> bool {
    lo <= m <= hi
}

/// `toks` match `text[0..b]`: a literal matches its bytes (an `_` in it any byte when
/// `underscore_wild`), `Skip(n)` exactly `n` codepoints, and `Any` any run of bytes.
pub open spec fn like_prefix(toks: Seq<TokenModel>, text: Seq<u8>, underscore_wild: bool, b: int) -> bool
    decreases toks.len(),
{
    if toks.len() == 0 {
        b == 0
    } else {
        match toks.last() {
            TokenModel::Literal(l) => b >= l.len() && matches_at(text, l, underscore_wild, b - l.len())
                && like_prefix(toks.drop_last(), text, underscore_wild, b - l.len()),
            TokenModel::Skip(n) => exists|m: int|
                0 <= m <= b && skip_end(text, m, n) == Some(b) && like_prefix(
                    toks.drop_last(),
                    text,
                    underscore_wild,
                    m,
                ),
            TokenModel::Any => exists|m: int|
                #[trigger] between(0, m, b) && like_prefix(toks.drop_last(), text, underscore_wild, m),
        }
    }
}

/// `toks` match the whole of `text`.
pub open spec fn like_matches(toks: Seq<TokenModel>, text: Seq<u8>, underscore_wild: bool) -> bool {
    like_prefix(toks, text, underscore_wild, text.len() as int)
}

/// The literals of a prefix of `toks` are a prefix of the literals of `toks`.
proof fn lemma_literals_prefix(toks: Seq<TokenModel>, t: int)
    requires
        0 <= t <= toks.len(),
    ensures
        literals_of(toks.take(t)).len() <= literals_of(toks).len(),
        forall|i: int|
            0 <= i < literals_of(toks.take(t)).len() ==> #[trigger] literals_of(toks.take(t))[i]
                == literals_of(toks)[i],
    decreases toks.len() - t,
{
    if t == toks.len() {
        assert(toks.take(t) =~= toks);
    } else {
        lemma_literals_prefix(toks, t + 1);
        lemma_take_step(toks, t);
        assert forall|i: int| 0 <= i < literals_of(toks.take(t)).len() implies #[trigger] literals_of(
            toks.take(t),
        )[i] == literals_of(toks)[i] by {
            assert(literals_of(toks.take(t + 1))[i] == literals_of(toks)[i]);
        }
    }
}

/// How the literals of `toks.take(t + 1)` extend those of `toks.take(t)`.
proof fn lemma_take_step(toks: Seq<TokenModel>, t: int)
    requires
        0 <= t < toks.len(),
    ensures
        toks.take(t + 1).drop_last() == toks.take(t),
        toks.take(t + 1).last() == toks[t],
        literals_of(toks.take(t + 1)) == match toks[t] {
            TokenModel::Literal(l) => literals_of(toks.take(t)).push(l),
            _ => literals_of(toks.take(t)),
        },
{
    assert(toks.take(t + 1).drop_last() =~= toks.take(t));
}

/// The literal at token `t` is literal number `literals_of(toks.take(t)).len()`.
proof fn lemma_literal_index(toks: Seq<TokenModel>, t: int)
    requires
        0 <= t < toks.len(),
        is_literal(toks[t]),
    ensures
        literals_of(toks.take(t)).len() < literals_of(toks).len(),
        toks[t] == TokenModel::Literal(literals_of(toks)[literals_of(toks.take(t)).len() as int]),
{
    lemma_take_step(toks, t);
    lemma_literals_prefix(toks, t + 1);
    let k = literals_of(toks.take(t)).len() as int;
    assert(literals_of(toks.take(t + 1))[k] == literals_of(toks)[k]);
}

/// Whether `lit` holds an `_`.
fn contains_underscore(lit: &[u8]) -> (r: bool)
    ensures
        r == exists|k: int| 0 <= k < lit@.len() && lit@[k] == 0x5fu8,
{
    let mut k: usize = 0;
    while k < lit.len()
        invariant
            k <= lit@.len(),
            forall|j: int| 0 <= j < k ==> lit@[j] != 0x5fu8,
        decreases lit@.len() - k,
    {
        if lit[k] == 0x5fu8 {
            return true;
        }
        k += 1;
    }
    false
}

/// Whether literal number `state_idx`, `lit`, matches `text` at `idx`: through the kernel when
/// underscores in literals are wildcards and `lit` holds one, byte for byte otherwise.
fn literal_matches_at<S: StringSearch>(
    pattern: &Pattern<S>,
    lit: &[u8],
    text: &[u8],
    idx: usize,
    state_idx: usize,
) -> (r: bool)
    requires
        pattern.wf(),
        state_idx < literals_of(pattern.tokens_spec()).len(),
        literals_of(pattern.tokens_spec())[state_idx as int] == lit@,
        idx <= text@.len(),
    ensures
        r == matches_at(text@, lit@, pattern.underscore_wild(), idx as int),
{
    let wild = pattern.literal_underscore_is_wildcard;
    let has_underscore = if wild {
        contains_underscore(lit)
    } else {
        false
    };
    if has_underscore {
        let config = &pattern.literal_configs[state_idx];
        let state = &pattern.literal_states[state_idx];
        let found = S::find_bytes(config, state, slice_subrange(text, idx, text.len()));
        proof {
            lemma_matches_in_suffix(text@, lit@, S::underscore_wild(), idx as int, 0);
        }
        match found {
            Some(off) => off == 0,
            None => false,
        }
    } else {
        let n = text.len();
        let m = lit.len();
        if idx > n || m > n - idx {
            return false;
        }
        let mut k: usize = 0;
        while k < m
            invariant
                k <= m,
                m == lit@.len(),
                n == text@.len(),
                idx + m <= n,
                forall|j: int| 0 <= j < k ==> text@[idx + j] == lit@[j],
                wild ==> !(exists|j: int| 0 <= j < lit@.len() && lit@[j] == 0x5fu8),
                pattern.underscore_wild() ==> wild,
            decreases m - k,
        {
            if text[idx + k] != lit[k] {
                assert(!(lit@[k as int] == 0x5fu8 && pattern.underscore_wild())) by {
                    if wild {
                        assert(lit@[k as int] != 0x5fu8);
                    }
                }
                return false;
            }
            k += 1;
        }
        true
    }
}

/// The width of the codepoint that starts at `p`.
fn char_width_at(text: &[u8], p: usize) -> (r: usize)
    requires
        p < text@.len(),
    ensures
        r == char_width(text@, p as int),
        r >= 1,
{
    let b = text[p];
    let w: usize = if b < 0x80u8 {
        1
    } else if b >= 0xf0u8 {
        4
    } else if b >= 0xe0u8 {
        3
    } else if b >= 0xc0u8 {
        2
    } else {
        1
    };
    if w <= text.len() - p {
        w
    } else {
        text.len() - p
    }
}

/// Advances `count` codepoints from `start`; `None` when the text ends first.
fn skip_chars(text: &[u8], start: usize, count: usize) -> (r: Option<usize>)
    requires
        start <= text@.len(),
    ensures
        match r {
            Some(e) => skip_end(text@, start as int, count as nat) == Some(e as int) && start <= e
                <= text@.len(),
            None => skip_end(text@, start as int, count as nat) is None,
        },
{
    let mut pos = start;
    let mut met: usize = 0;
    while met < count
        invariant
            met <= count,
            start <= pos <= text@.len(),
            skip_end(text@, start as int, count as nat) == skip_end(text@, pos as int, (count - met) as nat),
        decreases count - met,
    {
        if pos >= text.len() {
            return None;
        }
        let w = char_width_at(text, pos);
        pos = pos + w;
        met += 1;
    }
    Some(pos)
}

/// A literal that matches where a prefix of the tokens ends extends it.
#[verifier::spinoff_prover]
proof fn lemma_extend_literal(toks: Seq<TokenModel>, tx: Seq<u8>, uw: bool, t: int, m: int)
    requires
        0 <= t < toks.len(),
        is_literal(toks[t]),
        like_prefix(toks.take(t), tx, uw, m),
        matches_at(tx, literal_bytes(toks[t]), uw, m),
    ensures
        like_prefix(toks.take(t + 1), tx, uw, m + literal_bytes(toks[t]).len()),
{
    lemma_take_step(toks, t);
}

/// A skip whose codepoints follow a prefix of the tokens extends it.
#[verifier::spinoff_prover]
proof fn lemma_extend_skip(toks: Seq<TokenModel>, tx: Seq<u8>, uw: bool, t: int, m: int, b: int)
    requires
        0 <= t < toks.len(),
        is_skip(toks[t]),
        0 <= m <= b,
        like_prefix(toks.take(t), tx, uw, m),
        skip_end(tx, m, skip_count(toks[t])) == Some(b),
    ensures
        like_prefix(toks.take(t + 1), tx, uw, b),
{
    lemma_take_step(toks, t);
    let u = toks.take(t + 1);
    assert(u.len() > 0);
    assert(u.last() == TokenModel::Skip(skip_count(toks[t])));
    assert(like_prefix(u.drop_last(), tx, uw, m));
    assert(exists|m2: int|
        0 <= m2 <= b && skip_end(tx, m2, skip_count(toks[t])) == Some(b) && #[trigger] like_prefix(
            u.drop_last(),
            tx,
            uw,
            m2,
        ));
    assert(like_prefix(u, tx, uw, b));
}

/// An `Any` after a prefix of the tokens extends it to any later end.
#[verifier::spinoff_prover]
proof fn lemma_extend_any(toks: Seq<TokenModel>, tx: Seq<u8>, uw: bool, t: int, m: int, b: int)
    requires
        0 <= t < toks.len(),
        toks[t] == TokenModel::Any,
        0 <= m <= b,
        like_prefix(toks.take(t), tx, uw, m),
    ensures
        like_prefix(toks.take(t + 1), tx, uw, b),
{
    lemma_take_step(toks, t);
    let u = toks.take(t + 1);
    assert(u.len() > 0);
    assert(u.last() == TokenModel::Any);
    assert(like_prefix(u.drop_last(), tx, uw, m));
    assert(between(0, m, b));
}

pub open spec fn literal_bytes(t: TokenModel) -> Seq<u8> {
    match t {
        TokenModel::Literal(l) => l,
        _ => Seq::empty(),
    }
}

/// Whether every token from `t_idx` on is an `Any`; these match the empty rest of `text`.
fn only_any_left<S: StringSearch>(pattern: &Pattern<S>, tb: &[u8], t_idx: usize) -> (r: bool)
    requires
        t_idx <= pattern.tokens_spec().len(),
        like_prefix(pattern.tokens_spec().take(t_idx as int), tb@, pattern.underscore_wild(), tb@.len() as int),
    ensures
        r ==> like_matches(pattern.tokens_spec(), tb@, pattern.underscore_wild()),
{
    let ghost toks = pattern.tokens_spec();
    let ghost tx = tb@;
    let ghost uw = pattern.underscore_wild();
    let n = tb.len();
    let tokens = &pattern.tokens;
    let nt = tokens.len();
    let mut t_idx = t_idx;
    while t_idx < nt
        invariant
            toks == pattern.tokens_spec(),
            tx == tb@,
            n == tx.len(),
            tokens == &pattern.tokens,
            nt == toks.len(),
            uw == pattern.underscore_wild(),
            t_idx <= nt,
            like_prefix(toks.take(t_idx as int), tx, uw, n as int),
        decreases nt - t_idx,
    {
        if matches!(tokens[t_idx], Token::Any) {
            proof {
                lemma_take_step(toks, t_idx as int);
            }
            proof {
                lemma_extend_any(toks, tx, uw, t_idx as int, n as int, n as int);
            }
            t_idx += 1;
        } else {
            return false;
        }
    }
    proof {
        assert(toks.take(nt as int) =~= toks);
    }
    true
}

/// Matches `text` against compiled LIKE pattern `pattern`: whether the tokens match the whole
/// text.
pub fn like_match<S: StringSearch>(pattern: &Pattern<S>, text: &str) -> (r: bool)
    requires
        pattern.wf(),
    ensures
        r ==> like_matches(pattern.tokens_spec(), text.spec_bytes(), pattern.underscore_wild()),
        text.spec_bytes().len() < usize::MAX ==> r == like_matches(
            pattern.tokens_spec(),
            text.spec_bytes(),
            pattern.underscore_wild(),
        ),
        text.spec_bytes().len() < pattern.min_len_spec() ==> !r,
{
    like_match_bytes(pattern, text.as_bytes())
}

/// `like_match` on the bytes of a text: the greedy walk first, which settles every match and
/// most mismatches quickly; a text that it rejects is settled by the token-by-token reachable
/// positions.
pub fn like_match_bytes<S: StringSearch>(pattern: &Pattern<S>, tb: &[u8]) -> (r: bool)
    requires
        pattern.wf(),
    ensures
        r ==> like_matches(pattern.tokens_spec(), tb@, pattern.underscore_wild()),
        tb@.len() < usize::MAX ==> r == like_matches(pattern.tokens_spec(), tb@, pattern.underscore_wild()),
        tb@.len() < pattern.min_len_spec() ==> !r,
{
    proof {
        if like_matches(pattern.tokens_spec(), tb@, pattern.underscore_wild()) {
            lemma_min_len(pattern.tokens_spec(), tb@, pattern.underscore_wild(), tb@.len() as int);
        }
    }
    if tb.len() < pattern.min_len {
        return false;
    }
    if greedy_match(pattern, tb) {
        return true;
    }
    if tb.len() == usize::MAX {
        return false;
    }
    reach_match(pattern, tb)
}

/// The greedy walk: anchored checks of a leading and a trailing literal, then a left-to-right
/// walk over the tokens that jumps to the next literal with the kernel after each `Any` and, on
/// a mismatch, restarts after the last `Any` one step further on. A `true` answer means that
/// the tokens match the whole text.
#[verifier::rlimit(100)]
fn greedy_match<S: StringSearch>(pattern: &Pattern<S>, tb: &[u8]) -> (r: bool)
    requires
        pattern.wf(),
    ensures
        r ==> like_matches(pattern.tokens_spec(), tb@, pattern.underscore_wild()),
{
    let n = tb.len();
    if n < pattern.min_len {
        return false;
    }
    let ghost toks = pattern.tokens_spec();
    let ghost tx = tb@;
    let ghost uw = pattern.underscore_wild();
    let tokens = &pattern.tokens;
    let nt = tokens.len();
    let n_lits = pattern.literal_configs.len();
    let starts_with_any = nt > 0 && matches!(tokens[0], Token::Any);
    let ends_with_any = nt > 0 && matches!(tokens[nt - 1], Token::Any);
    let mut t_idx: usize = 0;
    let mut s_idx: usize = 0;
    let mut state_idx: usize = 0;
    let mut last_wildcard_t_idx: Option<usize> = None;
    let mut last_wildcard_state_idx: usize = 0;
    let mut match_s_idx: usize = 0;
    let ghost mut anchor_s: int = 0;
    proof {
        assert(toks.take(0) =~= Seq::<TokenModel>::empty());
    }
    if !starts_with_any && nt > 0 {
        match &tokens[0] {
            Token::Literal(lit) => {
                proof {
                    lemma_literal_index(toks, 0);
                    lemma_take_step(toks, 0);
                }
                if !literal_matches_at(pattern, lit.as_slice(), tb, 0, 0) {
                    return false;
                }
                proof {
                    lemma_extend_literal(toks, tx, uw, 0, 0);
                }
                s_idx = lit.len();
                t_idx = 1;
                state_idx = 1;
            },
            _ => {},
        }
    }
    if !ends_with_any && nt > 0 {
        match &tokens[nt - 1] {
            Token::Literal(lit) => {
                proof {
                    lemma_literal_index(toks, nt - 1);
                    lemma_take_step(toks, nt - 1);
                    assert(toks.take(nt as int) =~= toks);
                }
                let last_state_idx = pattern.literal_configs.len() - 1;
                if n < lit.len() || !literal_matches_at(
                    pattern,
                    lit.as_slice(),
                    tb,
                    n - lit.len(),
                    last_state_idx,
                ) {
                    return false;
                }
            },
            _ => {},
        }
    }
    while s_idx < n
        invariant
            pattern.wf(),
            toks == pattern.tokens_spec(),
            uw == pattern.underscore_wild(),
            tx == tb@,
            n == tx.len(),
            tokens == &pattern.tokens,
            nt == toks.len(),
            n_lits == literals_of(toks).len(),
            t_idx <= nt,
            s_idx <= n,
            match_s_idx <= s_idx,
            state_idx == literals_of(toks.take(t_idx as int)).len(),
            like_prefix(toks.take(t_idx as int), tx, uw, s_idx as int),
            match last_wildcard_t_idx {
                Some(a) => a < t_idx && toks[a as int] == TokenModel::Any && last_wildcard_state_idx
                    == literals_of(toks.take(a as int)).len() && 0 <= anchor_s <= match_s_idx
                    && like_prefix(toks.take(a as int), tx, uw, anchor_s),
                None => true,
            },
        decreases n - match_s_idx, nt - t_idx,
    {
        if t_idx < nt {
            match &tokens[t_idx] {
                Token::Literal(lit) => {
                    proof {
                        lemma_literal_index(toks, t_idx as int);
                        lemma_take_step(toks, t_idx as int);
                    }
                    if literal_matches_at(pattern, lit.as_slice(), tb, s_idx, state_idx) {
                        proof {
                            lemma_extend_literal(toks, tx, uw, t_idx as int, s_idx as int);
                        }
                        s_idx = s_idx + lit.len();
                        t_idx += 1;
                        state_idx += 1;
                        continue;
                    }
                },
                Token::Skip(count) => {
                    proof {
                        lemma_take_step(toks, t_idx as int);
                    }
                    match skip_chars(tb, s_idx, *count) {
                        Some(e) => {
                            proof {
                                lemma_extend_skip(toks, tx, uw, t_idx as int, s_idx as int, e as int);
                            }
                            s_idx = e;
                            t_idx += 1;
                            continue;
                        },
                        None => {},
                    }
                },
                Token::Any => {
                    proof {
                        lemma_take_step(toks, t_idx as int);
                        anchor_s = s_idx as int;
                    }
                    last_wildcard_t_idx = Some(t_idx);
                    last_wildcard_state_idx = state_idx;
                    if t_idx + 1 < nt && matches!(tokens[t_idx + 1], Token::Literal(_)) {
                        proof {
                            lemma_literal_index(toks, t_idx + 1);
                        }
                        let found = S::find_bytes(
                            &pattern.literal_configs[state_idx],
                            &pattern.literal_states[state_idx],
                            slice_subrange(tb, s_idx, n),
                        );
                        match found {
                            Some(off) => {
                                proof {
                                    lemma_matches_in_suffix(
                                        tx,
                                        S::pattern_of(&pattern.literal_configs@[state_idx as int]),
                                        S::underscore_wild(),
                                        s_idx as int,
                                        off as int,
                                    );
                                }
                                proof {
                                    lemma_extend_any(toks, tx, uw, t_idx as int, s_idx as int, s_idx + off);
                                }
                                match_s_idx = s_idx + off;
                                s_idx = match_s_idx;
                                t_idx += 1;
                                continue;
                            },
                            None => {
                                return false;
                            },
                        }
                    }
                    proof {
                        lemma_extend_any(toks, tx, uw, t_idx as int, s_idx as int, s_idx as int);
                    }
                    t_idx += 1;
                    match_s_idx = s_idx;
                    continue;
                },
            }
        }
        match last_wildcard_t_idx {
            Some(a) => {
                proof {
                    lemma_take_step(toks, a as int);
                }
                t_idx = a + 1;
                state_idx = last_wildcard_state_idx;
                if t_idx < nt && matches!(tokens[t_idx], Token::Literal(_)) {
                    let search_start = match_s_idx + 1;
                    if search_start >= n {
                        return false;
                    }
                    proof {
                        lemma_literal_index(toks, t_idx as int);
                    }
                    let found = S::find_bytes(
                        &pattern.literal_configs[state_idx],
                        &pattern.literal_states[state_idx],
                        slice_subrange(tb, search_start, n),
                    );
                    match found {
                        Some(off) => {
                            proof {
                                lemma_matches_in_suffix(
                                    tx,
                                    S::pattern_of(&pattern.literal_configs@[state_idx as int]),
                                    S::underscore_wild(),
                                    search_start as int,
                                    off as int,
                                );
                            }
                            proof {
                                lemma_extend_any(toks, tx, uw, a as int, anchor_s, search_start + off);
                            }
                            match_s_idx = search_start + off;
                            s_idx = match_s_idx;
                            continue;
                        },
                        None => {
                            return false;
                        },
                    }
                } else if match_s_idx < n {
                    let w = char_width_at(tb, match_s_idx);
                    proof {
                        lemma_extend_any(toks, tx, uw, a as int, anchor_s, match_s_idx + w);
                    }
                    match_s_idx = match_s_idx + w;
                    s_idx = match_s_idx;
                    continue;
                }
            },
            None => {},
        }
        return false;
    }
    only_any_left(pattern, tb, t_idx)
}

proof fn lemma_prefix_first_literal(toks: Seq<TokenModel>, text: Seq<u8>, uw: bool, b: int)
    requires
        toks.len() > 0,
        is_literal(toks[0]),
        like_prefix(toks, text, uw, b),
    ensures
        matches_at(text, literal_bytes(toks[0]), uw, 0),
    decreases toks.len(),
{
    if toks.len() > 1 {
        let d = toks.drop_last();
        assert(d[0] == toks[0]);
        match toks.last() {
            TokenModel::Literal(l) => {
                lemma_prefix_first_literal(d, text, uw, b - l.len());
            },
            TokenModel::Skip(n) => {
                let m = choose|m: int| 0 <= m <= b && skip_end(text, m, n) == Some(b) && like_prefix(d, text, uw, m);
                lemma_prefix_first_literal(d, text, uw, m);
            },
            TokenModel::Any => {
                let m = choose|m: int| #[trigger] between(0, m, b) && like_prefix(d, text, uw, m);
                lemma_prefix_first_literal(d, text, uw, m);
            },
        }
    } else {
        assert(toks.drop_last().len() == 0);
        assert(toks.last() == toks[0]);
        let l = literal_bytes(toks[0]);
        assert(like_prefix(toks.drop_last(), text, uw, b - l.len()));
        assert(b - l.len() == 0);
    }
}

/// What a well-formed compiled pattern holds: well-formed tokens, and as least length the
/// literals' lengths plus the skips.
pub proof fn lemma_pattern_shape<S: StringSearch>(p: &Pattern<S>)
    requires
        p.wf(),
    ensures
        tokens_wf(p.tokens_spec()),
        p.min_len_spec() == min_len_of(p.tokens_spec()),
{
}

/// LIKE anchoring: when a pattern does not start with `%`, a text that it matches starts with
/// its leading literal; when it does not end with `%`, the text ends with its trailing literal.
pub proof fn lemma_like_anchoring(toks: Seq<TokenModel>, text: Seq<u8>, uw: bool)
    requires
        like_matches(toks, text, uw),
    ensures
        toks.len() > 0 && is_literal(toks[0]) ==> matches_at(text, literal_bytes(toks[0]), uw, 0),
        toks.len() > 0 && is_literal(toks.last()) ==> matches_at(
            text,
            literal_bytes(toks.last()),
            uw,
            text.len() - literal_bytes(toks.last()).len(),
        ),
{
    if toks.len() > 0 && is_literal(toks[0]) {
        lemma_prefix_first_literal(toks, text, uw, text.len() as int);
    }
}

/// Compiling the same pattern with the same options twice gives the same tokens, the same least
/// length and the same literal mode, so the two patterns accept the same texts.
pub proof fn lemma_compile_deterministic<S: StringSearch>(
    a: Pattern<S>,
    b: Pattern<S>,
    pattern: Seq<u8>,
    options: CompileOptions,
)
    requires
        a.wf(),
        b.wf(),
        a.tokens_spec() == tokenize(pattern, options.treat_underscore_as_literal),
        b.tokens_spec() == tokenize(pattern, options.treat_underscore_as_literal),
        a.underscore_wild() == (options.literal_underscore_is_wildcard && S::underscore_wild()),
        b.underscore_wild() == (options.literal_underscore_is_wildcard && S::underscore_wild()),
    ensures
        a.tokens_spec() == b.tokens_spec(),
        a.min_len_spec() == b.min_len_spec(),
        forall|text: Seq<u8>|
            like_matches(a.tokens_spec(), text, a.underscore_wild()) == like_matches(
                b.tokens_spec(),
                text,
                b.underscore_wild(),
            ),
{
}

proof fn lemma_skip_end_bound(text: Seq<u8>, m: int, c: nat, b: int)
    requires
        skip_end(text, m, c) == Some(b),
    ensures
        b >= m + c,
        0 <= m ==> b <= text.len() || c == 0,
    decreases c,
{
    if c > 0 {
        lemma_skip_end_bound(text, m + char_width(text, m), (c - 1) as nat, b);
    }
}

/// A text prefix that the tokens match is at least as long as the tokens' least length.
proof fn lemma_min_len(toks: Seq<TokenModel>, tx: Seq<u8>, uw: bool, b: int)
    requires
        like_prefix(toks, tx, uw, b),
    ensures
        b >= min_len_of(toks),
    decreases toks.len(),
{
    if toks.len() > 0 {
        let d = toks.drop_last();
        match toks.last() {
            TokenModel::Literal(l) => {
                lemma_min_len(d, tx, uw, b - l.len());
            },
            TokenModel::Skip(n) => {
                let m = choose|m: int| 0 <= m <= b && skip_end(tx, m, n) == Some(b) && like_prefix(d, tx, uw, m);
                lemma_min_len(d, tx, uw, m);
                lemma_skip_end_bound(tx, m, n, b);
            },
            TokenModel::Any => {
                let m = choose|m: int| #[trigger] between(0, m, b) && like_prefix(d, tx, uw, m);
                lemma_min_len(d, tx, uw, m);
            },
        }
    }
}

/// `reach@[x]` says, for every end `x` of a text prefix, whether `toks` match it.
pub open spec fn reach_ok(reach: Seq<bool>, toks: Seq<TokenModel>, tx: Seq<u8>, uw: bool) -> bool {
    &&& reach.len() == tx.len() + 1
    &&& forall|x: int| 0 <= x <= tx.len() ==> #[trigger] reach[x] == like_prefix(toks, tx, uw, x)
}

/// Decides the match exactly: for each token in turn, the set of text positions at which a
/// match of the tokens so far can end.
fn reach_match<S: StringSearch>(pattern: &Pattern<S>, tb: &[u8]) -> (r: bool)
    requires
        pattern.wf(),
        tb@.len() < usize::MAX,
    ensures
        r == like_matches(pattern.tokens_spec(), tb@, pattern.underscore_wild()),
{
    let ghost toks = pattern.tokens_spec();
    let ghost tx = tb@;
    let ghost uw = pattern.underscore_wild();
    let n = tb.len();
    let nt = pattern.tokens.len();
    let n_lits = pattern.literal_configs.len();
    let mut reach: Vec<bool> = vec![false; n + 1];
    reach.set(0, true);
    proof {
        assert(toks.take(0) =~= Seq::<TokenModel>::empty());
        assert forall|x: int| 0 <= x <= n implies #[trigger] reach@[x] == like_prefix(toks.take(0), tx, uw, x) by {
        }
    }
    let mut t: usize = 0;
    let mut state_idx: usize = 0;
    while t < nt
        invariant
            pattern.wf(),
            toks == pattern.tokens_spec(),
            tx == tb@,
            uw == pattern.underscore_wild(),
            n == tx.len(),
            n < usize::MAX,
            nt == toks.len(),
            n_lits == literals_of(toks).len(),
            t <= nt,
            state_idx == literals_of(toks.take(t as int)).len(),
            reach_ok(reach@, toks.take(t as int), tx, uw),
        decreases nt - t,
    {
        proof {
            lemma_take_step(toks, t as int);
        }
        let ghost u = toks.take(t + 1);
        let mut next: Vec<bool> = vec![false; n + 1];
        match &pattern.tokens[t] {
            Token::Literal(lit) => {
                proof {
                    lemma_literal_index(toks, t as int);
                }
                let len = lit.len();
                let mut x: usize = 0;
                while x <= n
                    invariant
                        pattern.wf(),
                        toks == pattern.tokens_spec(),
                        tx == tb@,
                        uw == pattern.underscore_wild(),
                        n == tx.len(),
                        n < usize::MAX,
                        nt == toks.len(),
                        t < nt,
                        toks[t as int] == TokenModel::Literal(lit@),
                        len == lit@.len(),
                        state_idx < literals_of(toks).len(),
                        literals_of(toks)[state_idx as int] == lit@,
                        u == toks.take(t + 1),
                        u.drop_last() == toks.take(t as int),
                        u.last() == toks[t as int],
                        reach_ok(reach@, toks.take(t as int), tx, uw),
                        next@.len() == n + 1,
                        x <= n + 1,
                        forall|y: int| 0 <= y < x ==> #[trigger] next@[y] == like_prefix(u, tx, uw, y),
                    decreases n + 1 - x,
                {
                    let v = x >= len && reach[x - len] && literal_matches_at(pattern, lit.as_slice(), tb, x - len, state_idx);
                    next.set(x, v);
                    x += 1;
                }
                state_idx += 1;
            },
            Token::Skip(count) => {
                let c = *count;
                let mut m: usize = 0;
                while m <= n
                    invariant
                        tx == tb@,
                        n == tx.len(),
                        n < usize::MAX,
                        t < nt,
                        nt == toks.len(),
                        toks[t as int] == TokenModel::Skip(c as nat),
                        reach_ok(reach@, toks.take(t as int), tx, uw),
                        next@.len() == n + 1,
                        m <= n + 1,
                        forall|y: int|
                            0 <= y <= n ==> #[trigger] next@[y] == exists|q: int|
                                0 <= q < m && q <= y && skip_end(tx, q, c as nat) == Some(y) && like_prefix(
                                    toks.take(t as int),
                                    tx,
                                    uw,
                                    q,
                                ),
                    decreases n + 1 - m,
                {
                    let ghost before = next@;
                    if reach[m] {
                        match skip_chars(tb, m, c) {
                            Some(e) => {
                                next.set(e, true);
                                proof {
                                    assert forall|y: int| 0 <= y <= n implies #[trigger] next@[y] == exists|q: int|
                                        0 <= q < m + 1 && q <= y && skip_end(tx, q, c as nat) == Some(y) && like_prefix(
                                            toks.take(t as int),
                                            tx,
                                            uw,
                                            q,
                                        ) by {
                                        if y == e {
                                            assert(skip_end(tx, m as int, c as nat) == Some(y));
                                        } else {
                                            assert(next@[y] == before[y]);
                                            if exists|q: int| 0 <= q < m + 1 && q <= y && skip_end(tx, q, c as nat) == Some(y)
                                                && like_prefix(toks.take(t as int), tx, uw, q) {
                                                let q = choose|q: int| 0 <= q < m + 1 && q <= y && skip_end(tx, q, c as nat) == Some(y)
                                                    && like_prefix(toks.take(t as int), tx, uw, q);
                                                if q == m {
                                                    assert(skip_end(tx, m as int, c as nat) == Some(e as int));
                                                }
                                            }
                                        }
                                    }
                                }
                            },
                            None => {
                                proof {
                                    assert forall|y: int| 0 <= y <= n implies #[trigger] next@[y] == exists|q: int|
                                        0 <= q < m + 1 && q <= y && skip_end(tx, q, c as nat) == Some(y) && like_prefix(
                                            toks.take(t as int),
                                            tx,
                                            uw,
                                            q,
                                        ) by {
                                        if exists|q: int| 0 <= q < m + 1 && q <= y && skip_end(tx, q, c as nat) == Some(y)
                                            && like_prefix(toks.take(t as int), tx, uw, q) {
                                            let q = choose|q: int| 0 <= q < m + 1 && q <= y && skip_end(tx, q, c as nat) == Some(y)
                                                && like_prefix(toks.take(t as int), tx, uw, q);
                                            if q == m {
                                                assert(skip_end(tx, m as int, c as nat) is None);
                                            }
                                        }
                                    }
                                }
                            },
                        }
                    } else {
                        proof {
                            assert forall|y: int| 0 <= y <= n implies #[trigger] next@[y] == exists|q: int|
                                0 <= q < m + 1 && q <= y && skip_end(tx, q, c as nat) == Some(y) && like_prefix(
                                    toks.take(t as int),
                                    tx,
                                    uw,
                                    q,
                                ) by {
                                if exists|q: int| 0 <= q < m + 1 && q <= y && skip_end(tx, q, c as nat) == Some(y)
                                    && like_prefix(toks.take(t as int), tx, uw, q) {
                                    let q = choose|q: int| 0 <= q < m + 1 && q <= y && skip_end(tx, q, c as nat) == Some(y)
                                        && like_prefix(toks.take(t as int), tx, uw, q);
                                    if q == m {
                                        assert(!reach@[m as int]);
                                    }
                                }
                            }
                        }
                    }
                    m += 1;
                }
                proof {
                    assert forall|y: int| 0 <= y <= n implies #[trigger] next@[y] == like_prefix(u, tx, uw, y) by {
                        if like_prefix(u, tx, uw, y) {
                            let q = choose|q: int| 0 <= q <= y && skip_end(tx, q, c as nat) == Some(y) && like_prefix(
                                toks.take(t as int),
                                tx,
                                uw,
                                q,
                            );
                            assert(0 <= q < n + 1 && q <= y && skip_end(tx, q, c as nat) == Some(y) && like_prefix(
                                toks.take(t as int),
                                tx,
                                uw,
                                q,
                            ));
                        }
                        if next@[y] {
                            let q = choose|q: int| 0 <= q < n + 1 && q <= y && skip_end(tx, q, c as nat) == Some(y)
                                && like_prefix(toks.take(t as int), tx, uw, q);
                            assert(exists|q2: int| 0 <= q2 <= y && skip_end(tx, q2, c as nat) == Some(y) && like_prefix(
                                u.drop_last(),
                                tx,
                                uw,
                                q2,
                            ));
                        }
                    }
                }
            },
            Token::Any => {
                let mut seen = false;
                let mut x: usize = 0;
                while x <= n
                    invariant
                        tx == tb@,
                        n == tx.len(),
                        n < usize::MAX,
                        t < nt,
                        nt == toks.len(),
                        toks[t as int] == TokenModel::Any,
                        u == toks.take(t + 1),
                        u.drop_last() == toks.take(t as int),
                        u.last() == toks[t as int],
                        reach_ok(reach@, toks.take(t as int), tx, uw),
                        next@.len() == n + 1,
                        x <= n + 1,
                        seen == exists|q: int| 0 <= q < x && #[trigger] reach@[q],
                        forall|y: int| 0 <= y < x ==> #[trigger] next@[y] == like_prefix(u, tx, uw, y),
                    decreases n + 1 - x,
                {
                    if reach[x] {
                        seen = true;
                    }
                    next.set(x, seen);
                    proof {
                        let y = x as int;
                        if like_prefix(u, tx, uw, y) {
                            let q = choose|q: int| #[trigger] between(0, q, y) && like_prefix(u.drop_last(), tx, uw, q);
                            assert(reach@[q]);
                        }
                        if seen {
                            let q = choose|q: int| 0 <= q < x + 1 && #[trigger] reach@[q];
                            assert(between(0, q, y));
                            assert(like_prefix(u.drop_last(), tx, uw, q));
                        }
                    }
                    x += 1;
                }
            },
        }
        reach = next;
        t += 1;
    }
    proof {
        assert(toks.take(nt as int) =~= toks);
    }
    reach[n]
}

} // verus!