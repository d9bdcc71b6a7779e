//! The grammar reader: a lexer and a recursive-descent parser for the
//! surface syntax
//! `Name ::= Alt1 | Alt2 ;` with atoms (identifiers, single-quoted
//! terminals, parenthesized groups, `_` for epsilon), the postfix operators
//! `*`, `+` and `?`, line comments `// …`, and whitespace between tokens.
//! The first error aborts reading and is reported with its location.

use crate::ast::{File, Prod, RuleDef};
use crate::bytes::copy_bytes;
use crate::errors::{Error, ErrorKind, Errors, Loc};
use vstd::prelude::*;

verus! {

pub enum TokenKind {
    Star,
    Plus,
    Opt,
    LPar,
    RPar,
    Or,
    Semi,
    Eps,
    Def,
    StrLit,
    Id,
}

/// One token with its text and source location.
pub struct Token {
    pub kind: TokenKind,
    pub piece: Vec<u8>,
    pub line: usize,
    pub col: usize,
}

impl Token {
    /// The token's text.
    pub fn str(&self) -> (r: Vec<u8>)
        ensures
            r@ == self.piece@,
    {
        copy_bytes(&self.piece)
    }

    pub fn loc(&self) -> (r: Loc)
        ensures
            r.0 == self.line,
            r.1 == self.col,
    {
        Loc(self.line, self.col)
    }
}

/// A token at the specification level: its kind and text.
pub struct TokenModel {
    pub kind: TokenKind,
    pub piece: Seq<u8>,
}

impl Token {
    pub open spec fn model(&self) -> TokenModel {
        TokenModel { kind: self.kind, piece: self.piece@ }
    }
}

pub open spec fn toks_models(s: Seq<Token>) -> Seq<TokenModel> {
    Seq::new(s.len(), |i: int| s[i].model())
}

/// A production at the specification level.
pub enum ProdModel {
    Concat(Box<ProdModel>, Box<ProdModel>),
    Term(Seq<u8>),
    NonTerm(Seq<u8>),
    Opt(Box<ProdModel>),
    Star(Box<ProdModel>),
    Plus(Box<ProdModel>),
    Empty,
}

impl Prod {
    pub open spec fn model(&self) -> ProdModel
        decreases *self,
    {
        match self {
            Prod::Concat(l, r) => ProdModel::Concat(Box::new(l.model()), Box::new(r.model())),
            Prod::Terminal(t) => ProdModel::Term(t@),
            Prod::NonTerminal(n) => ProdModel::NonTerm(n@),
            Prod::Optional(o) => ProdModel::Opt(Box::new(o.model())),
            Prod::Star(o) => ProdModel::Star(Box::new(o.model())),
            Prod::Plus(o) => ProdModel::Plus(Box::new(o.model())),
            Prod::Eps => ProdModel::Empty,
        }
    }
}

/// A rule at the specification level: its name and alternatives.
pub struct RuleModel {
    pub name: Seq<u8>,
    pub alts: Seq<ProdModel>,
}

impl RuleDef {
    pub open spec fn model(&self) -> RuleModel {
        RuleModel { name: self.name@, alts: Seq::new(self.prod@.len(), |i: int| self.prod@[i].model()) }
    }
}

pub open spec fn rule_models(s: Seq<RuleDef>) -> Seq<RuleModel> {
    Seq::new(s.len(), |i: int| s[i].model())
}

/// Whitespace bytes: space, tab, newline, carriage return.
pub open spec fn is_ws(b: u8) -> bool {
    b == 32 || b == 9 || b == 10 || b == 13
}

/// The first position at or after `pos` that ends a comment: a newline or
/// the end of the input.
pub open spec fn line_end(src: Seq<u8>, pos: int) -> int
    decreases src.len() - pos,
        when 0 <= pos <= src.len()
{
    if pos >= src.len() || src[pos] == 10 {
        pos
    } else {
        line_end(src, pos + 1)
    }
}

/// The position of the closing quote at or after `pos`, or -1 when the
/// literal never closes.
pub open spec fn quote_close(src: Seq<u8>, pos: int) -> int
    decreases src.len() - pos,
        when 0 <= pos <= src.len()
{
    if pos >= src.len() {
        -1
    } else if src[pos] == 39 {
        pos
    } else {
        quote_close(src, pos + 1)
    }
}

/// The first position at or after `pos` whose byte does not continue an
/// identifier.
pub open spec fn word_end(src: Seq<u8>, pos: int) -> int
    decreases src.len() - pos,
        when 0 <= pos <= src.len()
{
    if pos >= src.len() || !is_word_byte(src[pos]) {
        pos
    } else {
        word_end(src, pos + 1)
    }
}

/// Prepend a token to a successful rest.
pub open spec fn opt_cons_tok(t: TokenModel, rest: Option<Seq<TokenModel>>) -> Option<
    Seq<TokenModel>,
> {
    match rest {
        Some(r) => Some(seq![t] + r),
        None => None,
    }
}

/// Append a lexed prefix to the rest of a lexing outcome.
pub open spec fn opt_append(prefix: Seq<TokenModel>, rest: Option<Seq<TokenModel>>) -> Option<
    Seq<TokenModel>,
> {
    match rest {
        Some(r) => Some(prefix + r),
        None => None,
    }
}

proof fn lemma_opt_append_step(
    prefix: Seq<TokenModel>,
    t: TokenModel,
    rest: Option<Seq<TokenModel>>,
)
    ensures
        opt_append(prefix, opt_cons_tok(t, rest)) == opt_append(prefix.push(t), rest),
{
    match rest {
        Some(r) => {
            assert(prefix + (seq![t] + r) =~= prefix.push(t) + r);
        },
        None => {},
    }
}

/// The token sequence of the source from `pos` on, or `None` at the first
/// unrecognized character.  This is the functional specification of the
/// lexer.  (The guards on the recursive calls only restate that each scan
/// advances.)
pub open spec fn lex_model(src: Seq<u8>, pos: int) -> Option<Seq<TokenModel>>
    decreases src.len() - pos,
        when 0 <= pos <= src.len()
{
    if pos >= src.len() {
        Some(Seq::empty())
    } else {
        let b = src[pos];
        if is_ws(b) {
            lex_model(src, pos + 1)
        } else if b == 47 && src.len() - pos >= 2 && src[pos + 1] == 47 {
            if line_end(src, pos + 2) > pos && line_end(src, pos + 2) <= src.len() {
                lex_model(src, line_end(src, pos + 2))
            } else {
                None
            }
        } else if b == 42 || b == 43 || b == 63 || b == 40 || b == 41 || b == 124 || b == 59 || b
            == 95 {
            let kind = if b == 42 {
                TokenKind::Star
            } else if b == 43 {
                TokenKind::Plus
            } else if b == 63 {
                TokenKind::Opt
            } else if b == 40 {
                TokenKind::LPar
            } else if b == 41 {
                TokenKind::RPar
            } else if b == 124 {
                TokenKind::Or
            } else if b == 59 {
                TokenKind::Semi
            } else {
                TokenKind::Eps
            };
            opt_cons_tok(TokenModel { kind, piece: seq![b] }, lex_model(src, pos + 1))
        } else if b == 58 {
            if src.len() - pos >= 3 && src[pos + 1] == 58 && src[pos + 2] == 61 {
                opt_cons_tok(
                    TokenModel { kind: TokenKind::Def, piece: seq![58u8, 58u8, 61u8] },
                    lex_model(src, pos + 3),
                )
            } else {
                None
            }
        } else if b == 39 {
            let qe = quote_close(src, pos + 1);
            if qe >= pos + 2 && qe < src.len() {
                opt_cons_tok(
                    TokenModel { kind: TokenKind::StrLit, piece: src.subrange(pos, qe + 1) },
                    lex_model(src, qe + 1),
                )
            } else {
                None
            }
        } else if is_letter(b) {
            let we = word_end(src, pos + 1);
            if we > pos && we <= src.len() {
                opt_cons_tok(
                    TokenModel { kind: TokenKind::Id, piece: src.subrange(pos, we) },
                    lex_model(src, we),
                )
            } else {
                None
            }
        } else {
            None
        }
    }
}

pub open spec fn prod_models(s: Seq<Prod>) -> Seq<ProdModel> {
    Seq::new(s.len(), |i: int| s[i].model())
}

/// The postfix-operator loop: wrap `p` while `*`, `+` or `?` follows.
pub open spec fn p_suffix_loop(toks: Seq<TokenModel>, p: ProdModel, pos: int) -> (ProdModel, int)
    decreases toks.len() - pos,
        when 0 <= pos
{
    if pos >= toks.len() {
        (p, pos)
    } else {
        match toks[pos].kind {
            TokenKind::Star => p_suffix_loop(toks, ProdModel::Star(Box::new(p)), pos + 1),
            TokenKind::Plus => p_suffix_loop(toks, ProdModel::Plus(Box::new(p)), pos + 1),
            TokenKind::Opt => p_suffix_loop(toks, ProdModel::Opt(Box::new(p)), pos + 1),
            _ => (p, pos),
        }
    }
}

/// Whether the token can begin an atom.
pub open spec fn atom_start(k: TokenKind) -> bool {
    match k {
        TokenKind::Id => true,
        TokenKind::StrLit => true,
        TokenKind::Eps => true,
        TokenKind::LPar => true,
        _ => false,
    }
}

/// One atom: an identifier, a quoted terminal, epsilon, or a
/// parenthesized group.  Together with the functions below this is the
/// functional specification of the recursive-descent reader; `None` is a
/// syntax error.  (The guards on recursive positions only restate that
/// parsing consumes input.)
pub open spec fn p_atom(toks: Seq<TokenModel>, pos: int) -> Option<(ProdModel, int)>
    decreases toks.len() - pos, 0int,
        when 0 <= pos
{
    if pos >= toks.len() {
        None
    } else {
        match toks[pos].kind {
            TokenKind::Id => Some((ProdModel::NonTerm(toks[pos].piece), pos + 1)),
            TokenKind::StrLit => Some((ProdModel::Term(toks[pos].piece), pos + 1)),
            TokenKind::Eps => Some((ProdModel::Empty, pos + 1)),
            TokenKind::LPar => match p_alt(toks, pos + 1) {
                Some((p, pos2)) => if 0 <= pos2 < toks.len() && (toks[pos2].kind
                    matches TokenKind::RPar) {
                    Some((p, pos2 + 1))
                } else {
                    None
                },
                None => None,
            },
            _ => None,
        }
    }
}

/// One atom with its postfix operators.
pub open spec fn p_suffixed(toks: Seq<TokenModel>, pos: int) -> Option<(ProdModel, int)>
    decreases toks.len() - pos, 1int,
        when 0 <= pos
{
    match p_atom(toks, pos) {
        Some((p, pos1)) => Some(p_suffix_loop(toks, p, pos1)),
        None => None,
    }
}

/// Concatenate further suffixed atoms onto `p` while one follows.
pub open spec fn p_alt_loop(toks: Seq<TokenModel>, p: ProdModel, pos: int) -> Option<
    (ProdModel, int),
>
    decreases toks.len() - pos, 2int,
        when 0 <= pos
{
    if pos >= toks.len() {
        Some((p, pos))
    } else if !atom_start(toks[pos].kind) {
        Some((p, pos))
    } else {
        match p_suffixed(toks, pos) {
            Some((q, pos2)) => if pos2 > pos && pos2 <= toks.len() {
                p_alt_loop(toks, ProdModel::Concat(Box::new(p), Box::new(q)), pos2)
            } else {
                None
            },
            None => None,
        }
    }
}

/// One alternative: one or more suffixed atoms, concatenated left to
/// right.
pub open spec fn p_alt(toks: Seq<TokenModel>, pos: int) -> Option<(ProdModel, int)>
    decreases toks.len() - pos, 3int,
        when 0 <= pos
{
    match p_suffixed(toks, pos) {
        Some((p, pos1)) => if pos1 > pos && pos1 <= toks.len() {
            p_alt_loop(toks, p, pos1)
        } else {
            None
        },
        None => None,
    }
}

/// The remaining alternatives of a rule: `| Alt` repeated, closed by `;`.
pub open spec fn p_rule_alts(toks: Seq<TokenModel>, alts: Seq<ProdModel>, pos: int) -> Option<
    (Seq<ProdModel>, int),
>
    decreases toks.len() - pos, 4int,
        when 0 <= pos
{
    if pos >= toks.len() {
        None
    } else if (toks[pos].kind matches TokenKind::Or) {
        match p_alt(toks, pos + 1) {
            Some((p, pos2)) => if pos2 > pos && pos2 <= toks.len() {
                p_rule_alts(toks, alts.push(p), pos2)
            } else {
                None
            },
            None => None,
        }
    } else if (toks[pos].kind matches TokenKind::Semi) {
        Some((alts, pos + 1))
    } else {
        None
    }
}

/// One rule `Name ::= Alt | … ;`.
pub open spec fn p_rule(toks: Seq<TokenModel>, pos: int) -> Option<(RuleModel, int)>
    decreases toks.len() - pos, 5int,
        when 0 <= pos
{
    if pos < toks.len() && (toks[pos].kind matches TokenKind::Id) && pos + 1 < toks.len() && (
    toks[pos + 1].kind matches TokenKind::Def) {
        match p_alt(toks, pos + 2) {
            Some((p, pos2)) => if pos2 > pos && pos2 <= toks.len() {
                match p_rule_alts(toks, seq![p], pos2) {
                    Some((alts, pos3)) => Some(
                        (RuleModel { name: toks[pos].piece, alts }, pos3),
                    ),
                    None => None,
                }
            } else {
                None
            },
            None => None,
        }
    } else {
        None
    }
}

/// The rule list to the end of the input.
pub open spec fn p_rules(toks: Seq<TokenModel>, pos: int) -> Option<Seq<RuleModel>>
    decreases toks.len() - pos, 6int,
        when 0 <= pos
{
    if pos >= toks.len() {
        Some(Seq::empty())
    } else {
        match p_rule(toks, pos) {
            Some((rd, pos2)) => if pos2 > pos && pos2 <= toks.len() {
                match p_rules(toks, pos2) {
                    Some(rest) => Some(seq![rd] + rest),
                    None => None,
                }
            } else {
                None
            },
            None => None,
        }
    }
}

/// What the reader returns on the given source bytes: the rules of the
/// grammar when the text lexes and parses with at least one rule, `None`
/// otherwise.
pub open spec fn work_model(src: Seq<u8>) -> Option<Seq<RuleModel>> {
    match lex_model(src, 0) {
        Some(toks) => match p_rules(toks, 0) {
            Some(rs) => if rs.len() >= 1 {
                Some(rs)
            } else {
                None
            },
            None => None,
        },
        None => None,
    }
}

/// The lexer: a cursor over the source bytes with its current location.
pub struct Lexer {
    pub src: Vec<u8>,
    pub pos: usize,
    pub line: usize,
    pub col: usize,
}

pub open spec fn is_letter(b: u8) -> bool {
    (65 <= b <= 90) || (97 <= b <= 122)
}

pub open spec fn is_word_byte(b: u8) -> bool {
    is_letter(b) || (48 <= b <= 57) || b == 95
}

/// An identifier: a letter followed by letters, digits and underscores.
pub open spec fn wf_ident(s: Seq<u8>) -> bool {
    s.len() >= 1 && is_letter(s[0]) && forall|i: int| 0 <= i < s.len() ==> is_word_byte(#[trigger] s[i])
}

/// A terminal literal as stored: single-quoted with a non-empty payload.
pub open spec fn wf_literal(s: Seq<u8>) -> bool {
    s.len() >= 3 && s[0] == 39 && s[s.len() - 1] == 39
}

/// The lexer only produces well-formed identifier and literal tokens.
pub open spec fn wf_token(t: Token) -> bool {
    match t.kind {
        TokenKind::Id => wf_ident(t.piece@),
        TokenKind::StrLit => wf_literal(t.piece@),
        _ => true,
    }
}

/// Every name of the production is a well-formed identifier and every
/// terminal a well-formed literal.
pub open spec fn prod_wf_names(p: Prod) -> bool
    decreases p,
{
    match p {
        Prod::Concat(l, r) => prod_wf_names(*l) && prod_wf_names(*r),
        Prod::Terminal(t) => wf_literal(t@),
        Prod::NonTerminal(n) => wf_ident(n@),
        Prod::Optional(o) => prod_wf_names(*o),
        Prod::Star(o) => prod_wf_names(*o),
        Prod::Plus(o) => prod_wf_names(*o),
        Prod::Eps => true,
    }
}

impl Lexer {
    pub open spec fn wf(self) -> bool {
        self.pos <= self.src@.len()
    }

    pub fn new(src: Vec<u8>) -> (r: Lexer)
        ensures
            r.wf(),
            r.src@ == src@,
            r.pos == 0,
    {
        Lexer { src, pos: 0, line: 1, col: 1 }
    }

    pub fn loc(&self) -> (r: Loc)
        ensures
            r.0 == self.line,
            r.1 == self.col,
    {
        Loc(self.line, self.col)
    }

    fn bump(&mut self)
        requires
            old(self).wf(),
            old(self).pos < old(self).src@.len(),
        ensures
            final(self).wf(),
            final(self).src@ == old(self).src@,
            final(self).pos == old(self).pos + 1,
    {
        let n = self.src.len();
        assert(self.pos < n);
        let b = self.src[self.pos];
        if b == 10 {
            self.line = if self.line < usize::MAX {
                self.line + 1
            } else {
                self.line
            };
            self.col = 1;
        } else {
            self.col = if self.col < usize::MAX {
                self.col + 1
            } else {
                self.col
            };
        }
        self.pos = self.pos + 1;
    }

    /// Lex the whole input, or stop at the first unrecognized character.
    pub fn tokenize(&mut self) -> (r: Result<Vec<Token>, Error>)
        requires
            old(self).wf(),
        ensures
            final(self).wf(),
            r matches Ok(toks) ==> forall|k: int|
                0 <= k < toks@.len() ==> wf_token(#[trigger] toks@[k]),
            r matches Ok(toks) ==> lex_model(old(self).src@, old(self).pos as int) == Some(
                toks_models(toks@),
            ),
            r matches Err(_) ==> lex_model(old(self).src@, old(self).pos as int) matches None,
    {
        let mut toks: Vec<Token> = Vec::new();
        proof {
            match lex_model(self.src@, self.pos as int) {
                Some(r2) => {
                    assert(toks_models(toks@) + r2 =~= r2);
                },
                None => {},
            }
        }
        loop
            invariant
                self.wf(),
                self.src@ == old(self).src@,
                old(self).pos <= self.src@.len(),
                forall|k: int| 0 <= k < toks@.len() ==> wf_token(#[trigger] toks@[k]),
                lex_model(self.src@, old(self).pos as int) == opt_append(
                    toks_models(toks@),
                    lex_model(self.src@, self.pos as int),
                ),
            decreases self.src@.len() - self.pos,
        {
            if self.pos >= self.src.len() {
                proof {
                    assert(lex_model(self.src@, self.pos as int) == Some(Seq::<TokenModel>::empty()));
                    assert(toks_models(toks@) + Seq::<TokenModel>::empty() =~= toks_models(toks@));
                }
                return Ok(toks);
            }
            let ghost p0 = self.pos;
            let b = self.src[self.pos];
            if b == 32 || b == 9 || b == 10 || b == 13 {
                self.bump();
                proof {
                    assert(lex_model(self.src@, p0 as int) == lex_model(self.src@, p0 + 1));
                }
            } else if b == 47 && self.src.len() - self.pos >= 2 && self.src[self.pos + 1] == 47 {
                self.bump();
                self.bump();
                while self.pos < self.src.len() && self.src[self.pos] != 10
                    invariant
                        self.wf(),
                        self.src@ == old(self).src@,
                        self.pos > p0,
                        p0 + 2 <= self.pos,
                        line_end(self.src@, p0 + 2) == line_end(self.src@, self.pos as int),
                    decreases self.src@.len() - self.pos,
                {
                    proof {
                        assert(line_end(self.src@, self.pos as int) == line_end(
                            self.src@,
                            self.pos + 1,
                        ));
                    }
                    self.bump();
                }
                proof {
                    assert(line_end(self.src@, self.pos as int) == self.pos as int);
                    assert(line_end(self.src@, p0 + 2) == self.pos as int);
                    assert(lex_model(self.src@, p0 as int) == lex_model(
                        self.src@,
                        self.pos as int,
                    ));
                }
            } else {
                let line = self.line;
                let col = self.col;
                if b == 42 || b == 43 || b == 63 || b == 40 || b == 41 || b == 124 || b == 59 || b
                    == 95 {
                    let kind = if b == 42 {
                        TokenKind::Star
                    } else if b == 43 {
                        TokenKind::Plus
                    } else if b == 63 {
                        TokenKind::Opt
                    } else if b == 40 {
                        TokenKind::LPar
                    } else if b == 41 {
                        TokenKind::RPar
                    } else if b == 124 {
                        TokenKind::Or
                    } else if b == 59 {
                        TokenKind::Semi
                    } else {
                        TokenKind::Eps
                    };
                    let mut piece: Vec<u8> = Vec::new();
                    piece.push(b);
                    self.bump();
                    let ghost pre = toks@;
                    toks.push(Token { kind, piece, line, col });
                    proof {
                        assert(forall|k: int| 0 <= k < pre.len() ==> #[trigger] toks@[k] == pre[k]);
                        let tm = toks@.last().model();
                        assert(tm.piece =~= seq![b]);
                        assert(lex_model(self.src@, p0 as int) == opt_cons_tok(
                            tm,
                            lex_model(self.src@, p0 + 1),
                        ));
                        lemma_opt_append_step(
                            toks_models(pre),
                            tm,
                            lex_model(self.src@, p0 + 1),
                        );
                        assert(toks_models(toks@) =~= toks_models(pre).push(tm));
                    }
                } else if b == 58 {
                    if self.src.len() - self.pos >= 3 && self.src[self.pos + 1] == 58
                        && self.src[self.pos + 2] == 61 {
                        let mut piece: Vec<u8> = Vec::new();
                        piece.push(58);
                        piece.push(58);
                        piece.push(61);
                        self.bump();
                        self.bump();
                        self.bump();
                        let ghost pre = toks@;
                        toks.push(Token { kind: TokenKind::Def, piece, line, col });
                        proof {
                            assert(forall|k: int|
                                0 <= k < pre.len() ==> #[trigger] toks@[k] == pre[k]);
                            let tm = toks@.last().model();
                            assert(tm.piece =~= seq![58u8, 58u8, 61u8]);
                            assert(lex_model(self.src@, p0 as int) == opt_cons_tok(
                                tm,
                                lex_model(self.src@, p0 + 3),
                            ));
                            lemma_opt_append_step(
                                toks_models(pre),
                                tm,
                                lex_model(self.src@, p0 + 3),
                            );
                            assert(toks_models(toks@) =~= toks_models(pre).push(tm));
                        }
                    } else {
                        proof {
                            assert(lex_model(self.src@, p0 as int) matches None);
                        }
                        return Err(Error(Loc(line, col), ErrorKind::UnrecognizedChar(':')));
                    }
                } else if b == 39 {
                    let mut piece: Vec<u8> = Vec::new();
                    piece.push(39);
                    self.bump();
                    proof {
                        assert(piece@ =~= self.src@.subrange(p0 as int, self.pos as int));
                    }
                    let mut closed = false;
                    while self.pos < self.src.len() && !closed
                        invariant
                            self.wf(),
                            self.src@ == old(self).src@,
                            self.pos > p0,
                            piece@.len() >= 1,
                            piece@[0] == 39,
                            closed ==> piece@[piece@.len() - 1] == 39,
                            piece@ =~= self.src@.subrange(p0 as int, self.pos as int),
                            !closed ==> quote_close(self.src@, p0 + 1) == quote_close(
                                self.src@,
                                self.pos as int,
                            ),
                            closed ==> quote_close(self.src@, p0 + 1) == self.pos - 1,
                        decreases self.src@.len() - self.pos,
                    {
                        let c = self.src[self.pos];
                        proof {
                            if c != 39 {
                                assert(quote_close(self.src@, self.pos as int) == quote_close(
                                    self.src@,
                                    self.pos + 1,
                                ));
                            } else {
                                assert(quote_close(self.src@, self.pos as int)
                                    == self.pos as int);
                            }
                        }
                        let ghost piecep = piece@;
                        self.bump();
                        piece.push(c);
                        proof {
                            assert(piece@ =~= self.src@.subrange(p0 as int, self.pos as int));
                        }
                        if c == 39 {
                            closed = true;
                        }
                    }
                    if !closed || piece.len() < 3 {
                        proof {
                            if !closed {
                                assert(quote_close(self.src@, self.pos as int) == -1);
                                assert(quote_close(self.src@, p0 + 1) == -1);
                            } else {
                                assert(piece@.len() == self.pos - p0);
                                assert(quote_close(self.src@, p0 + 1) < p0 + 2);
                            }
                            assert(lex_model(self.src@, p0 as int) matches None);
                        }
                        return Err(Error(Loc(line, col), ErrorKind::UnrecognizedChar('\'')));
                    }
                    proof {
                        assert(wf_literal(piece@));
                    }
                    let ghost pre = toks@;
                    toks.push(Token { kind: TokenKind::StrLit, piece, line, col });
                    proof {
                        assert(forall|k: int| 0 <= k < pre.len() ==> #[trigger] toks@[k] == pre[k]);
                        let tm = toks@.last().model();
                        let ghost qe = quote_close(self.src@, p0 + 1);
                        assert(qe == self.pos - 1);
                        assert(qe >= p0 + 2);
                        assert(tm.piece =~= self.src@.subrange(p0 as int, qe + 1));
                        assert(lex_model(self.src@, p0 as int) == opt_cons_tok(
                            tm,
                            lex_model(self.src@, qe + 1),
                        ));
                        lemma_opt_append_step(
                            toks_models(pre),
                            tm,
                            lex_model(self.src@, qe + 1),
                        );
                        assert(toks_models(toks@) =~= toks_models(pre).push(tm));
                    }
                } else if (65 <= b && b <= 90) || (97 <= b && b <= 122) {
                    let mut piece: Vec<u8> = Vec::new();
                    piece.push(b);
                    self.bump();
                    proof {
                        assert(piece@ =~= self.src@.subrange(p0 as int, self.pos as int));
                    }
                    while self.pos < self.src.len() && ((65 <= self.src[self.pos]
                        && self.src[self.pos] <= 90) || (97 <= self.src[self.pos]
                        && self.src[self.pos] <= 122) || (48 <= self.src[self.pos]
                        && self.src[self.pos] <= 57) || self.src[self.pos] == 95)
                        invariant
                            self.wf(),
                            self.src@ == old(self).src@,
                            self.pos > p0,
                            wf_ident(piece@),
                            piece@ =~= self.src@.subrange(p0 as int, self.pos as int),
                            word_end(self.src@, p0 + 1) == word_end(self.src@, self.pos as int),
                        decreases self.src@.len() - self.pos,
                    {
                        proof {
                            assert(is_word_byte(self.src@[self.pos as int]));
                            assert(word_end(self.src@, self.pos as int) == word_end(
                                self.src@,
                                self.pos + 1,
                            ));
                        }
                        piece.push(self.src[self.pos]);
                        self.bump();
                        proof {
                            assert(piece@ =~= self.src@.subrange(p0 as int, self.pos as int));
                        }
                    }
                    proof {
                        assert(wf_ident(piece@));
                    }
                    let ghost pre = toks@;
                    toks.push(Token { kind: TokenKind::Id, piece, line, col });
                    proof {
                        assert(forall|k: int| 0 <= k < pre.len() ==> #[trigger] toks@[k] == pre[k]);
                        let tm = toks@.last().model();
                        let ghost we = word_end(self.src@, p0 + 1);
                        assert(word_end(self.src@, self.pos as int) == self.pos as int);
                        assert(we == self.pos as int);
                        assert(tm.piece =~= self.src@.subrange(p0 as int, we));
                        assert(lex_model(self.src@, p0 as int) == opt_cons_tok(
                            tm,
                            lex_model(self.src@, we),
                        ));
                        lemma_opt_append_step(toks_models(pre), tm, lex_model(self.src@, we));
                        assert(toks_models(toks@) =~= toks_models(pre).push(tm));
                    }
                } else {
                    proof {
                        assert(lex_model(self.src@, p0 as int) matches None);
                    }
                    return Err(Error(Loc(line, col), ErrorKind::UnrecognizedChar(b as char)));
                }
            }
        }
    }
}

/// The parser: a cursor over the token list.
pub struct Parser {
    pub toks: Vec<Token>,
    pub pos: usize,
}

impl Parser {
    pub open spec fn wf(self) -> bool {
        self.pos <= self.toks@.len()
    }

    /// All tokens came from the lexer well-formed.
    pub open spec fn toks_wf(self) -> bool {
        forall|k: int| 0 <= k < self.toks@.len() ==> wf_token(#[trigger] self.toks@[k])
    }

    fn err(&self) -> (r: Error)
        requires
            self.wf(),
    {
        if self.pos < self.toks.len() {
            Error(
                Loc(self.toks[self.pos].line, self.toks[self.pos].col),
                ErrorKind::SyntaxError,
            )
        } else {
            Error(Loc(0, 0), ErrorKind::SyntaxError)
        }
    }

    /// Parse one atom with its postfix operators.
    fn suffixed(&mut self) -> (r: Result<Prod, Error>)
        requires
            old(self).wf(),
            old(self).toks_wf(),
        ensures
            final(self).wf(),
            final(self).toks@ == old(self).toks@,
            final(self).pos >= old(self).pos,
            r matches Ok(_) ==> final(self).pos > old(self).pos,
            r matches Ok(p) ==> prod_wf_names(p),
            r matches Ok(p) ==> p_suffixed(toks_models(old(self).toks@), old(self).pos as int)
                == Some((p.model(), final(self).pos as int)),
            r matches Err(_) ==> p_suffixed(toks_models(old(self).toks@), old(self).pos as int)
                matches None,
        decreases old(self).toks@.len() - old(self).pos, 1int,
    {
        let ghost mtoks = toks_models(self.toks@);
        let ghost pos0 = self.pos as int;
        let a = self.atom();
        let mut p = match a {
            Ok(p) => p,
            Err(e) => {
                proof {
                    assert(p_atom(mtoks, pos0) matches None);
                    assert(p_suffixed(mtoks, pos0) matches None);
                }
                return Err(e);
            },
        };
        let ghost pm1 = p.model();
        let ghost pos1 = self.pos as int;
        proof {
            assert(p_atom(mtoks, pos0) == Some((pm1, pos1)));
            assert(p_suffixed(mtoks, pos0) == Some(p_suffix_loop(mtoks, pm1, pos1)));
        }
        loop
            invariant
                self.wf(),
                self.toks@ == old(self).toks@,
                self.pos > old(self).pos,
                prod_wf_names(p),
                mtoks == toks_models(self.toks@),
                p_suffix_loop(mtoks, p.model(), self.pos as int) == p_suffix_loop(
                    mtoks,
                    pm1,
                    pos1,
                ),
                p_suffixed(mtoks, pos0) == Some(p_suffix_loop(mtoks, pm1, pos1)),
                mtoks == toks_models(old(self).toks@),
                pos0 == old(self).pos as int,
            decreases self.toks@.len() - self.pos,
        {
            proof {
                if self.pos < self.toks@.len() {
                    assert(mtoks[self.pos as int] == self.toks@[self.pos as int].model());
                }
            }
            if self.pos >= self.toks.len() {
                proof {
                    assert(p_suffix_loop(mtoks, p.model(), self.pos as int) == (
                        p.model(),
                        self.pos as int,
                    ));
                    assert(p_suffixed(mtoks, pos0) == Some((p.model(), self.pos as int)));
                }
                return Ok(p);
            }
            let ghost pprev = p.model();
            let ghost posprev = self.pos as int;
            match self.toks[self.pos].kind {
                TokenKind::Star => {
                    p = Prod::Star(Box::new(p));
                    self.pos = self.pos + 1;
                    proof {
                        assert(p_suffix_loop(mtoks, p.model(), self.pos as int)
                            == p_suffix_loop(mtoks, pprev, posprev));
                    }
                },
                TokenKind::Plus => {
                    p = Prod::Plus(Box::new(p));
                    self.pos = self.pos + 1;
                    proof {
                        assert(p_suffix_loop(mtoks, p.model(), self.pos as int)
                            == p_suffix_loop(mtoks, pprev, posprev));
                    }
                },
                TokenKind::Opt => {
                    p = Prod::Optional(Box::new(p));
                    self.pos = self.pos + 1;
                    proof {
                        assert(p_suffix_loop(mtoks, p.model(), self.pos as int)
                            == p_suffix_loop(mtoks, pprev, posprev));
                    }
                },
                _ => {
                    proof {
                        assert(p_suffix_loop(mtoks, p.model(), self.pos as int) == (
                            p.model(),
                            self.pos as int,
                        ));
                        assert(p_suffixed(mtoks, pos0) == Some((p.model(), self.pos as int)));
                    }
                    return Ok(p);
                },
            }
        }
    }

    /// Parse one atom: an identifier, a quoted terminal, epsilon, or a
    /// parenthesized group.
    fn atom(&mut self) -> (r: Result<Prod, Error>)
        requires
            old(self).wf(),
            old(self).toks_wf(),
        ensures
            final(self).wf(),
            final(self).toks@ == old(self).toks@,
            final(self).pos >= old(self).pos,
            r matches Ok(_) ==> final(self).pos > old(self).pos,
            r matches Ok(p) ==> prod_wf_names(p),
            r matches Ok(p) ==> p_atom(toks_models(old(self).toks@), old(self).pos as int)
                == Some((p.model(), final(self).pos as int)),
            r matches Err(_) ==> p_atom(toks_models(old(self).toks@), old(self).pos as int)
                matches None,
        decreases old(self).toks@.len() - old(self).pos, 0int,
    {
        let ghost mtoks = toks_models(self.toks@);
        let ghost pos0 = self.pos as int;
        proof {
            assert(mtoks.len() == self.toks@.len());
            if self.pos < self.toks@.len() {
                assert(mtoks[self.pos as int] == self.toks@[self.pos as int].model());
            }
        }
        if self.pos >= self.toks.len() {
            proof {
                assert(p_atom(mtoks, pos0) matches None);
            }
            return Err(self.err());
        }
        match self.toks[self.pos].kind {
            TokenKind::Id => {
                proof {
                    assert(wf_token(self.toks@[self.pos as int]));
                }
                let name = self.toks[self.pos].str();
                self.pos = self.pos + 1;
                let r = Prod::NonTerminal(name);
                proof {
                    assert(r.model() == ProdModel::NonTerm(mtoks[pos0].piece));
                    assert(p_atom(mtoks, pos0) == Some((r.model(), pos0 + 1)));
                }
                Ok(r)
            },
            TokenKind::StrLit => {
                proof {
                    assert(wf_token(self.toks@[self.pos as int]));
                }
                let text = self.toks[self.pos].str();
                self.pos = self.pos + 1;
                let r = Prod::Terminal(text);
                proof {
                    assert(r.model() == ProdModel::Term(mtoks[pos0].piece));
                    assert(p_atom(mtoks, pos0) == Some((r.model(), pos0 + 1)));
                }
                Ok(r)
            },
            TokenKind::Eps => {
                self.pos = self.pos + 1;
                proof {
                    assert(p_atom(mtoks, pos0) == Some((ProdModel::Empty, pos0 + 1)));
                }
                Ok(Prod::Eps)
            },
            TokenKind::LPar => {
                self.pos = self.pos + 1;
                let inner = self.alt();
                let p = match inner {
                    Ok(p) => p,
                    Err(e) => {
                        proof {
                            assert(p_alt(mtoks, pos0 + 1) matches None);
                            assert(p_atom(mtoks, pos0) matches None);
                        }
                        return Err(e);
                    },
                };
                proof {
                    assert(p_alt(mtoks, pos0 + 1) == Some((p.model(), self.pos as int)));
                }
                if self.pos < self.toks.len() && (self.toks[self.pos].kind
                    matches TokenKind::RPar) {
                    proof {
                        assert(mtoks[self.pos as int] == self.toks@[self.pos as int].model());
                    }
                    self.pos = self.pos + 1;
                    proof {
                        assert(p_atom(mtoks, pos0) == Some((p.model(), self.pos as int)));
                    }
                    Ok(p)
                } else {
                    proof {
                        if self.pos < self.toks@.len() {
                            assert(mtoks[self.pos as int]
                                == self.toks@[self.pos as int].model());
                        }
                        assert(p_atom(mtoks, pos0) matches None);
                    }
                    Err(self.err())
                }
            },
            _ => {
                proof {
                    assert(p_atom(mtoks, pos0) matches None);
                }
                Err(self.err())
            },
        }
    }

    /// Parse one alternative: one or more suffixed atoms, concatenated
    /// left to right.
    fn alt(&mut self) -> (r: Result<Prod, Error>)
        requires
            old(self).wf(),
            old(self).toks_wf(),
        ensures
            final(self).wf(),
            final(self).toks@ == old(self).toks@,
            final(self).pos >= old(self).pos,
            r matches Ok(_) ==> final(self).pos > old(self).pos,
            r matches Ok(p) ==> prod_wf_names(p),
            r matches Ok(p) ==> p_alt(toks_models(old(self).toks@), old(self).pos as int)
                == Some((p.model(), final(self).pos as int)),
            r matches Err(_) ==> p_alt(toks_models(old(self).toks@), old(self).pos as int)
                matches None,
        decreases old(self).toks@.len() - old(self).pos, 2int,
    {
        let ghost mtoks = toks_models(self.toks@);
        let ghost pos0 = self.pos as int;
        let first = self.suffixed();
        let mut p = match first {
            Ok(p) => p,
            Err(e) => {
                proof {
                    assert(p_suffixed(mtoks, pos0) matches None);
                    assert(p_alt(mtoks, pos0) matches None);
                }
                return Err(e);
            },
        };
        proof {
            assert(p_suffixed(mtoks, pos0) == Some((p.model(), self.pos as int)));
            assert(p_alt(mtoks, pos0) == p_alt_loop(mtoks, p.model(), self.pos as int));
        }
        loop
            invariant
                self.wf(),
                self.toks@ == old(self).toks@,
                self.toks_wf(),
                self.pos > old(self).pos,
                prod_wf_names(p),
                mtoks == toks_models(self.toks@),
                mtoks == toks_models(old(self).toks@),
                pos0 == old(self).pos as int,
                p_alt(mtoks, pos0) == p_alt_loop(mtoks, p.model(), self.pos as int),
            decreases self.toks@.len() - self.pos,
        {
            proof {
                if self.pos < self.toks@.len() {
                    assert(mtoks[self.pos as int] == self.toks@[self.pos as int].model());
                }
            }
            if self.pos >= self.toks.len() {
                proof {
                    assert(p_alt_loop(mtoks, p.model(), self.pos as int) == Some((
                        p.model(),
                        self.pos as int,
                    )));
                }
                return Ok(p);
            }
            let more = match self.toks[self.pos].kind {
                TokenKind::Id => true,
                TokenKind::StrLit => true,
                TokenKind::Eps => true,
                TokenKind::LPar => true,
                _ => false,
            };
            proof {
                assert(more == atom_start(mtoks[self.pos as int].kind));
            }
            if !more {
                proof {
                    assert(p_alt_loop(mtoks, p.model(), self.pos as int) == Some((
                        p.model(),
                        self.pos as int,
                    )));
                }
                return Ok(p);
            }
            let ghost pprev = p.model();
            let ghost posprev = self.pos as int;
            let next = self.suffixed();
            match next {
                Ok(q) => {
                    proof {
                        assert(p_suffixed(mtoks, posprev) == Some((
                            q.model(),
                            self.pos as int,
                        )));
                    }
                    p = Prod::Concat(Box::new(p), Box::new(q));
                    proof {
                        assert(p_alt_loop(mtoks, pprev, posprev) == p_alt_loop(
                            mtoks,
                            p.model(),
                            self.pos as int,
                        ));
                    }
                },
                Err(e) => {
                    proof {
                        assert(p_suffixed(mtoks, posprev) matches None);
                        assert(p_alt_loop(mtoks, pprev, posprev) matches None);
                    }
                    return Err(e);
                },
            }
        }
    }

    /// Parse one rule `Name ::= Alt | … ;`.
    fn rule(&mut self) -> (r: Result<RuleDef, Error>)
        requires
            old(self).wf(),
            old(self).toks_wf(),
        ensures
            final(self).wf(),
            final(self).toks@ == old(self).toks@,
            final(self).pos >= old(self).pos,
            r matches Ok(rd) ==> final(self).pos > old(self).pos && rd.prod@.len() >= 1
                && wf_ident(rd.name@) && forall|j: int|
                0 <= j < rd.prod@.len() ==> prod_wf_names(#[trigger] rd.prod@[j]),
            r matches Ok(rd) ==> p_rule(toks_models(old(self).toks@), old(self).pos as int)
                == Some((rd.model(), final(self).pos as int)),
            r matches Err(_) ==> p_rule(toks_models(old(self).toks@), old(self).pos as int)
                matches None,
        decreases old(self).toks@.len() - old(self).pos, 3int,
    {
        let ghost mtoks = toks_models(self.toks@);
        let ghost pos0 = self.pos as int;
        proof {
            assert(mtoks.len() == self.toks@.len());
            if self.pos < self.toks@.len() {
                assert(mtoks[self.pos as int] == self.toks@[self.pos as int].model());
            }
        }
        if !(self.pos < self.toks.len() && (self.toks[self.pos].kind matches TokenKind::Id)) {
            proof {
                assert(p_rule(mtoks, pos0) matches None);
            }
            return Err(self.err());
        }
        proof {
            assert(wf_token(self.toks@[self.pos as int]));
        }
        let name = self.toks[self.pos].str();
        self.pos = self.pos + 1;
        proof {
            if self.pos < self.toks@.len() {
                assert(mtoks[self.pos as int] == self.toks@[self.pos as int].model());
            }
        }
        if !(self.pos < self.toks.len() && (self.toks[self.pos].kind matches TokenKind::Def)) {
            proof {
                assert(p_rule(mtoks, pos0) matches None);
            }
            return Err(self.err());
        }
        self.pos = self.pos + 1;
        let mut prods: Vec<Prod> = Vec::new();
        let first = self.alt();
        match first {
            Ok(p) => {
                prods.push(p);
                proof {
                    assert(p_alt(mtoks, pos0 + 2) == Some((p.model(), self.pos as int)));
                    assert(prod_models(prods@) =~= seq![p.model()]);
                }
            },
            Err(e) => {
                proof {
                    assert(p_alt(mtoks, pos0 + 2) matches None);
                    assert(p_rule(mtoks, pos0) matches None);
                }
                return Err(e);
            },
        }
        proof {
            assert(p_rule(mtoks, pos0) == (match p_rule_alts(
                mtoks,
                prod_models(prods@),
                self.pos as int,
            ) {
                Some((alts, pos3)) => Some(
                    (RuleModel { name: mtoks[pos0].piece, alts }, pos3),
                ),
                None => None,
            }));
        }
        loop
            invariant
                self.wf(),
                self.toks@ == old(self).toks@,
                self.toks_wf(),
                self.pos > old(self).pos,
                prods@.len() >= 1,
                wf_ident(name@),
                forall|j: int| 0 <= j < prods@.len() ==> prod_wf_names(#[trigger] prods@[j]),
                mtoks == toks_models(self.toks@),
                mtoks == toks_models(old(self).toks@),
                pos0 == old(self).pos as int,
                0 <= pos0 < mtoks.len(),
                name@ == mtoks[pos0].piece,
                p_rule(mtoks, pos0) == (match p_rule_alts(
                    mtoks,
                    prod_models(prods@),
                    self.pos as int,
                ) {
                    Some((alts, pos3)) => Some(
                        (RuleModel { name: mtoks[pos0].piece, alts }, pos3),
                    ),
                    None => None,
                }),
            decreases self.toks@.len() - self.pos,
        {
            proof {
                if self.pos < self.toks@.len() {
                    assert(mtoks[self.pos as int] == self.toks@[self.pos as int].model());
                }
            }
            if self.pos < self.toks.len() && (self.toks[self.pos].kind matches TokenKind::Or) {
                self.pos = self.pos + 1;
                let ghost altsprev = prod_models(prods@);
                let ghost posprev = self.pos - 1;
                let next = self.alt();
                match next {
                    Ok(p) => {
                        prods.push(p);
                        proof {
                            assert(p_alt(mtoks, posprev + 1) == Some((
                                p.model(),
                                self.pos as int,
                            )));
                            assert(prod_models(prods@) =~= altsprev.push(p.model()));
                            assert(p_rule_alts(mtoks, altsprev, posprev) == p_rule_alts(
                                mtoks,
                                prod_models(prods@),
                                self.pos as int,
                            ));
                        }
                    },
                    Err(e) => {
                        proof {
                            assert(p_alt(mtoks, posprev + 1) matches None);
                            assert(p_rule_alts(mtoks, altsprev, posprev) matches None);
                        }
                        return Err(e);
                    },
                }
            } else if self.pos < self.toks.len() && (self.toks[self.pos].kind
                matches TokenKind::Semi) {
                self.pos = self.pos + 1;
                let rd = RuleDef { name, prod: prods };
                proof {
                    assert(p_rule_alts(mtoks, prod_models(rd.prod@), self.pos - 1) == Some((
                        prod_models(rd.prod@),
                        self.pos as int,
                    )));
                    assert(rd.model().alts =~= prod_models(rd.prod@));
                    assert(rd.model() == RuleModel {
                        name: mtoks[pos0].piece,
                        alts: prod_models(rd.prod@),
                    });
                }
                return Ok(rd);
            } else {
                proof {
                    assert(p_rule_alts(mtoks, prod_models(prods@), self.pos as int)
                        matches None);
                }
                return Err(self.err());
            }
        }
    }
}

/// Read a grammar from source bytes.  On success the file has at least one
/// rule and every rule at least one alternative; on failure the error list
/// holds the first error found, with its location.
pub fn work(code: &Vec<u8>) -> (r: Result<File, Errors>)
    ensures
        r matches Ok(f) ==> f.rules@.len() >= 1 && forall|i: int|
            0 <= i < f.rules@.len() ==> (#[trigger] f.rules@[i]).prod@.len() >= 1 && wf_ident(
                f.rules@[i].name@,
            ) && forall|j: int|
                0 <= j < f.rules@[i].prod@.len() ==> prod_wf_names(
                    #[trigger] f.rules@[i].prod@[j],
                ),
        r matches Err(e) ==> e.0@.len() == 1,
        r matches Ok(f) ==> work_model(code@) == Some(rule_models(f.rules@)),
        r matches Err(_) ==> work_model(code@) matches None,
{
    let mut lexer = Lexer::new(copy_bytes(code));
    let ghost src0 = lexer.src@;
    proof {
        assert(src0 == code@);
    }
    let toks = match lexer.tokenize() {
        Ok(t) => t,
        Err(e) => {
            proof {
                assert(lex_model(code@, 0) matches None);
            }
            let mut errs = Errors(Vec::new());
            errs.0.push(e);
            return Err(errs);
        },
    };
    let ghost mtoks = toks_models(toks@);
    proof {
        assert(lex_model(code@, 0) == Some(mtoks));
        assert(rule_models(Seq::<RuleDef>::empty()) =~= Seq::<RuleModel>::empty());
        match p_rules(mtoks, 0) {
            Some(rest) => {
                assert(rule_models(Seq::<RuleDef>::empty()) + rest =~= rest);
            },
            None => {},
        }
    }
    let mut parser = Parser { toks, pos: 0 };
    let mut rules: Vec<RuleDef> = Vec::new();
    loop
        invariant
            parser.wf(),
            parser.toks_wf(),
            forall|i: int|
                0 <= i < rules@.len() ==> (#[trigger] rules@[i]).prod@.len() >= 1 && wf_ident(
                    rules@[i].name@,
                ) && forall|j: int|
                    0 <= j < rules@[i].prod@.len() ==> prod_wf_names(
                        #[trigger] rules@[i].prod@[j],
                    ),
            mtoks == toks_models(parser.toks@),
            lex_model(code@, 0) == Some(mtoks),
            match p_rules(mtoks, parser.pos as int) {
                Some(rest) => p_rules(mtoks, 0) == Some(rule_models(rules@) + rest),
                None => p_rules(mtoks, 0) matches None,
            },
        ensures
            lex_model(code@, 0) == Some(mtoks),
            p_rules(mtoks, 0) == Some(rule_models(rules@)),
        decreases parser.toks@.len() - parser.pos + 1,
    {
        if parser.pos >= parser.toks.len() {
            proof {
                assert(p_rules(mtoks, parser.pos as int) == Some(Seq::<RuleModel>::empty()));
                assert(rule_models(rules@) + Seq::<RuleModel>::empty() =~= rule_models(rules@));
            }
            break;
        }
        let ghost pre = rules@;
        let ghost posprev = parser.pos as int;
        match parser.rule() {
            Ok(rd) => {
                rules.push(rd);
                proof {
                    assert(forall|i: int| 0 <= i < pre.len() ==> #[trigger] rules@[i] == pre[i]);
                    assert(p_rule(mtoks, posprev) == Some((rd.model(), parser.pos as int)));
                    assert(rule_models(rules@) =~= rule_models(pre).push(rd.model()));
                    match p_rules(mtoks, parser.pos as int) {
                        Some(rest) => {
                            assert(p_rules(mtoks, posprev) == Some(seq![rd.model()] + rest));
                            assert(rule_models(pre) + (seq![rd.model()] + rest)
                                =~= rule_models(rules@) + rest);
                        },
                        None => {
                            assert(p_rules(mtoks, posprev) matches None);
                        },
                    }
                }
            },
            Err(e) => {
                proof {
                    assert(p_rule(mtoks, posprev) matches None);
                    assert(p_rules(mtoks, posprev) matches None);
                }
                let mut errs = Errors(Vec::new());
                errs.0.push(e);
                return Err(errs);
            },
        }
    }
    if rules.len() == 0 {
        proof {
            assert(work_model(code@) matches None);
        }
        let mut errs = Errors(Vec::new());
        errs.0.push(Error(Loc(0, 0), ErrorKind::SyntaxError));
        return Err(errs);
    }
    proof {
        assert(work_model(code@) == Some(rule_models(rules@)));
    }
    Ok(File { rules })
}

} // verus!
