//! S-expressions: the parenthesised symbols that an SMT-LIB script is written in. Nothing here
//! knows what the symbols mean.

use crate::text::{chars_of, is_white_space, same_text, text_of, white_space};
use crate::writing::{parsing_loses_nothing, written_all};
use vstd::prelude::*;

verus! {

/// A symbol, or a parenthesised list.
#[derive(Debug)]
pub enum Sexpr {
    Atom(String),
    List(Vec<Sexpr>),
}

/// The value of an S-expression.
#[verifier::ext_equal]
pub enum SexprModel {
    Atom(Seq<char>),
    List(Seq<SexprModel>),
}

/// The value of an S-expression.
pub open spec fn sexpr_model(s: Sexpr) -> SexprModel
    decreases s,
{
    match s {
        Sexpr::Atom(name) => SexprModel::Atom(name@),
        Sexpr::List(items) => SexprModel::List(
            Seq::new(
                items@.len(),
                |i: int|
                    if 0 <= i < items@.len() {
                        sexpr_model(items@[i])
                    } else {
                        SexprModel::List(Seq::empty())
                    },
            ),
        ),
    }
}

impl View for Sexpr {
    type V = SexprModel;

    open spec fn view(&self) -> SexprModel {
        sexpr_model(*self)
    }
}

/// The values of a list of S-expressions.
pub open spec fn sexpr_models(items: Seq<Sexpr>) -> Seq<SexprModel> {
    Seq::new(items.len(), |i: int| items[i]@)
}

/// The value of a list is the list of the values.
pub proof fn list_view(items: Vec<Sexpr>)
    ensures
        Sexpr::List(items)@ == SexprModel::List(sexpr_models(items@)),
{
    assert(Sexpr::List(items)@->List_0 =~= sexpr_models(items@));
}

fn same_sexpr(a: &Sexpr, b: &Sexpr) -> (r: bool)
    ensures
        r == (a@ == b@),
    decreases a,
{
    match (a, b) {
        (Sexpr::Atom(n), Sexpr::Atom(m)) => *n == *m,
        (Sexpr::List(xs), Sexpr::List(ys)) => {
            proof {
                list_view(*xs);
                list_view(*ys);
            }
            if xs.len() != ys.len() {
                assert(sexpr_models(xs@).len() != sexpr_models(ys@).len());
                return false;
            }
            let mut i: usize = 0;
            while i < xs.len()
                invariant
                    *a == Sexpr::List(*xs),
                    a@ == SexprModel::List(sexpr_models(xs@)),
                    b@ == SexprModel::List(sexpr_models(ys@)),
                    xs@.len() == ys@.len(),
                    i <= xs@.len(),
                    forall|k: int| 0 <= k < i ==> (#[trigger] xs@[k])@ == ys@[k]@,
                decreases xs@.len() - i,
            {
                if !same_sexpr(&xs[i], &ys[i]) {
                    assert(sexpr_models(xs@)[i as int] != sexpr_models(ys@)[i as int]);
                    return false;
                }
                i += 1;
            }
            assert(sexpr_models(xs@) =~= sexpr_models(ys@));
            true
        },
        _ => false,
    }
}

impl PartialEq for Sexpr {
    fn eq(&self, other: &Self) -> (r: bool) {
        same_sexpr(self, other)
    }
}

impl vstd::std_specs::cmp::PartialEqSpecImpl for Sexpr {
    open spec fn obeys_eq_spec() -> bool {
        true
    }

    open spec fn eq_spec(&self, other: &Self) -> bool {
        self@ == other@
    }
}

fn copy_sexpr(s: &Sexpr) -> (r: Sexpr)
    ensures
        r@ == s@,
    decreases s,
{
    match s {
        Sexpr::Atom(name) => Sexpr::Atom(name.clone()),
        Sexpr::List(items) => {
            let mut copies: Vec<Sexpr> = Vec::new();
            let mut i: usize = 0;
            while i < items.len()
                invariant
                    *s == Sexpr::List(*items),
                    i <= items@.len(),
                    copies@.len() == i,
                    forall|k: int| 0 <= k < i ==> (#[trigger] copies@[k])@ == items@[k]@,
                decreases items@.len() - i,
            {
                assert(decreases_to!(*s => s->List_0));
                copies.push(copy_sexpr(&items[i]));
                i += 1;
            }
            proof {
                list_view(*items);
                list_view(copies);
                assert(sexpr_models(copies@) =~= sexpr_models(items@));
            }
            Sexpr::List(copies)
        },
    }
}

impl Clone for Sexpr {
    fn clone(&self) -> (r: Self)
        ensures
            r@ == self@,
    {
        copy_sexpr(self)
    }
}

impl Sexpr {
    /// The symbol, if this is one.
    pub fn atom(&self) -> (r: Option<&str>)
        ensures
            match r {
                Some(s) => self@ == SexprModel::Atom(s@),
                None => self@ is List,
            },
    {
        match self {
            Sexpr::Atom(s) => Some(s.as_str()),
            Sexpr::List(_) => None,
        }
    }

    /// The items of the list, if this is one.
    pub fn list(&self) -> (r: Option<&[Sexpr]>)
        ensures
            match r {
                Some(items) => *self is List && items@ == self->List_0@ && self@
                    == SexprModel::List(sexpr_models(items@)),
                None => self@ is Atom,
            },
    {
        match self {
            Sexpr::List(items) => {
                proof {
                    list_view(*items);
                }
                Some(items.as_slice())
            },
            Sexpr::Atom(_) => None,
        }
    }
}

/// Why a text is not a sequence of S-expressions.
#[derive(Debug)]
pub struct ParseError(pub String);

/// How many characters stand before the end of the line.
pub open spec fn line_len(s: Seq<char>) -> nat
    decreases s.len(),
{
    if s.len() == 0 || s[0] == '\n' {
        0
    } else {
        1 + line_len(s.skip(1))
    }
}

/// How many characters there are up to and including the next `quote`, or all of them.
pub open spec fn quoted_len(s: Seq<char>, quote: char) -> nat
    decreases s.len(),
{
    if s.len() == 0 {
        0
    } else if s[0] == quote {
        1
    } else {
        1 + quoted_len(s.skip(1), quote)
    }
}

/// Whether a character ends a plain symbol.
pub open spec fn delimits(c: char) -> bool {
    c == '(' || c == ')' || white_space(c)
}

/// How many characters stand before the next parenthesis or white space.
pub open spec fn symbol_len(s: Seq<char>) -> nat
    decreases s.len(),
{
    if s.len() == 0 || delimits(s[0]) {
        0
    } else {
        1 + symbol_len(s.skip(1))
    }
}

pub proof fn line_len_bound(s: Seq<char>)
    ensures
        line_len(s) <= s.len(),
    decreases s.len(),
{
    if s.len() > 0 && s[0] != '\n' {
        line_len_bound(s.skip(1));
    }
}

pub proof fn quoted_len_bound(s: Seq<char>, quote: char)
    ensures
        quoted_len(s, quote) <= s.len(),
    decreases s.len(),
{
    if s.len() > 0 && s[0] != quote {
        quoted_len_bound(s.skip(1), quote);
    }
}

pub proof fn symbol_len_bound(s: Seq<char>)
    ensures
        symbol_len(s) <= s.len(),
    decreases s.len(),
{
    if s.len() > 0 && !delimits(s[0]) {
        symbol_len_bound(s.skip(1));
    }
}

/// How many characters the first token, comment or white space of a text takes.
pub open spec fn lexeme_len(s: Seq<char>) -> nat {
    let c = s[0];
    if c == ';' {
        line_len(s)
    } else if c == '(' || c == ')' || white_space(c) {
        1
    } else if c == '|' || c == '"' {
        1 + quoted_len(s.skip(1), c)
    } else {
        symbol_len(s)
    }
}

/// Whether a character that starts a lexeme starts a token.
pub open spec fn starts_token(c: char) -> bool {
    c != ';' && !white_space(c)
}

pub proof fn lexeme_len_bound(s: Seq<char>)
    requires
        s.len() > 0,
    ensures
        1 <= lexeme_len(s) <= s.len(),
{
    line_len_bound(s);
    quoted_len_bound(s.skip(1), s[0]);
    symbol_len_bound(s);
}

/// The tokens of a text. A semicolon opens a comment to the end of the line; a parenthesis is a
/// token; a symbol or string in bars or double quotes runs to its closing mark, or to the end of
/// the text; anything else runs to the next parenthesis or white space.
pub open spec fn tokens(s: Seq<char>) -> Seq<Seq<char>>
    decreases s.len(),
{
    if s.len() == 0 {
        Seq::empty()
    } else {
        proof {
            lexeme_len_bound(s);
        }
        let n = lexeme_len(s) as int;
        if starts_token(s[0]) {
            seq![s.take(n)] + tokens(s.skip(n))
        } else {
            tokens(s.skip(n))
        }
    }
}

/// A comment at the start of a text is as if it were not there.
pub proof fn comments_are_ignored(comment: Seq<char>, rest: Seq<char>)
    requires
        !comment.contains('\n'),
    ensures
        tokens(seq![';'] + comment + seq!['\n'] + rest) == tokens(rest),
{
    let s = seq![';'] + comment + seq!['\n'] + rest;
    let n = 1 + comment.len() as int;
    assert(s.skip(1) =~= comment + seq!['\n'] + rest);
    comment_len(s.skip(1), comment, rest);
    assert(lexeme_len(s) == n);
    let tail = s.skip(n);
    assert(tail =~= seq!['\n'] + rest);
    assert(tail.skip(1) =~= rest);
    assert(tokens(tail) == tokens(tail.skip(1)));
}

pub proof fn comment_len(s: Seq<char>, comment: Seq<char>, rest: Seq<char>)
    requires
        !comment.contains('\n'),
        s == comment + seq!['\n'] + rest,
    ensures
        line_len(s) == comment.len(),
    decreases comment.len(),
{
    if comment.len() == 0 {
        assert(s[0] == '\n');
    } else {
        assert(comment.contains(comment[0]));
        assert(s[0] == comment[0]);
        assert(s.skip(1) =~= comment.skip(1) + seq!['\n'] + rest);
        assert(!comment.skip(1).contains('\n')) by {
            if comment.skip(1).contains('\n') {
                let i = choose|i: int|
                    0 <= i < comment.skip(1).len() && comment.skip(1)[i] == '\n';
                assert(comment[i + 1] == '\n');
            }
        }
        comment_len(s.skip(1), comment.skip(1), rest);
    }
}

/// White space at the start of a text is as if it were not there.
pub proof fn white_space_is_ignored(c: char, rest: Seq<char>)
    requires
        white_space(c),
    ensures
        tokens(seq![c] + rest) == tokens(rest),
{
    let s = seq![c] + rest;
    assert(s.skip(1) =~= rest);
    assert(tokens(s) == tokens(s.skip(1)));
}

/// The texts one after the other, with a space between each two.
pub open spec fn joined(ts: Seq<Seq<char>>) -> Seq<char>
    decreases ts.len(),
{
    if ts.len() == 0 {
        Seq::empty()
    } else if ts.len() == 1 {
        ts[0]
    } else {
        ts[0] + seq![' '] + joined(ts.skip(1))
    }
}

/// Whether a text is a single token: a parenthesis; a mark of quotation with what stands up to the
/// next such mark, which is the last character if there is one; or a symbol.
pub open spec fn is_token(t: Seq<char>) -> bool {
    &&& t.len() > 0
    &&& t[0] != ';' && !white_space(t[0])
    &&& if t[0] == '(' || t[0] == ')' {
        t.len() == 1
    } else if t[0] == '|' || t[0] == '"' {
        forall|i: int| 1 <= i < t.len() - 1 ==> #[trigger] t[i] != t[0]
    } else {
        forall|i: int|
            0 <= i < t.len() ==> #[trigger] t[i] != '(' && t[i] != ')' && !white_space(t[i])
    }
}

/// Whether a token has its end in itself: if it is quoted, it is closed.
pub open spec fn is_closed(t: Seq<char>) -> bool {
    t[0] == '|' || t[0] == '"' ==> t.len() > 1 && t.last() == t[0]
}

pub proof fn quoted_len_open(s: Seq<char>, quote: char, n: int)
    requires
        0 <= n <= s.len(),
        forall|i: int| 0 <= i < n ==> #[trigger] s[i] != quote,
    ensures
        n == s.len() ==> quoted_len(s, quote) == n,
        n < s.len() && s[n] == quote ==> quoted_len(s, quote) == n + 1,
    decreases s.len(),
{
    if n > 0 {
        let rest = s.skip(1);
        assert forall|i: int| 0 <= i < n - 1 implies #[trigger] rest[i] != quote by {
            assert(rest[i] == s[i + 1]);
        }
        quoted_len_open(rest, quote, n - 1);
    }
}

pub proof fn quoted_len_chars(s: Seq<char>, quote: char)
    ensures
        ({
            let n = quoted_len(s, quote) as int;
            &&& n <= s.len()
            &&& forall|i: int| 0 <= i < n - 1 ==> #[trigger] s[i] != quote
            &&& n < s.len() ==> n > 0 && s[n - 1] == quote
        }),
    decreases s.len(),
{
    if s.len() > 0 && s[0] != quote {
        let rest = s.skip(1);
        quoted_len_chars(rest, quote);
        let n = quoted_len(s, quote) as int;
        assert forall|i: int| 0 <= i < n - 1 implies #[trigger] s[i] != quote by {
            if i > 0 {
                assert(rest[i - 1] == s[i]);
            }
        }
    }
}

pub proof fn symbol_len_end(s: Seq<char>, n: int)
    requires
        0 <= n <= s.len(),
        forall|i: int| 0 <= i < n ==> !delimits(#[trigger] s[i]),
        n < s.len() ==> delimits(s[n]),
    ensures
        symbol_len(s) == n,
    decreases s.len(),
{
    if n > 0 {
        let rest = s.skip(1);
        assert forall|i: int| 0 <= i < n - 1 implies !delimits(#[trigger] rest[i]) by {
            assert(rest[i] == s[i + 1]);
        }
        symbol_len_end(rest, n - 1);
    }
}

pub proof fn symbol_len_chars(s: Seq<char>)
    ensures
        symbol_len(s) <= s.len(),
        forall|i: int| 0 <= i < symbol_len(s) ==> !delimits(#[trigger] s[i]),
    decreases s.len(),
{
    if s.len() > 0 && !delimits(s[0]) {
        let rest = s.skip(1);
        symbol_len_chars(rest);
        assert forall|i: int| 0 <= i < symbol_len(s) implies !delimits(#[trigger] s[i]) by {
            if i > 0 {
                assert(rest[i - 1] == s[i]);
            }
        }
    }
}

/// A token at the start of a text that ends there, or that goes on with a space, is the first
/// lexeme of the text.
pub proof fn token_is_lexeme(t: Seq<char>, rest: Seq<char>)
    requires
        is_token(t),
        rest.len() > 0 ==> is_closed(t) && rest[0] == ' ',
    ensures
        lexeme_len(t + rest) == t.len(),
{
    let s = t + rest;
    let c = t[0];
    let n = t.len() as int;
    assert(s[0] == c);
    if c == '(' || c == ')' {
    } else if c == '|' || c == '"' {
        let tail = s.skip(1);
        let end = if n > 1 && t.last() == c {
            n - 2
        } else {
            n - 1
        };
        assert forall|i: int| 0 <= i < end implies #[trigger] tail[i] != c by {
            assert(tail[i] == t[i + 1]);
        }
        if n > 1 && t.last() == c {
            assert(tail[end] == t[n - 1]);
        }
        quoted_len_open(tail, c, end);
    } else {
        assert forall|i: int| 0 <= i < n implies !delimits(#[trigger] s[i]) by {
            assert(s[i] == t[i]);
        }
        symbol_len_end(s, n);
    }
}

/// Each token of a text is a single token, and all but the last have their ends in themselves.
pub proof fn tokens_are_tokens(s: Seq<char>)
    ensures
        forall|i: int| 0 <= i < tokens(s).len() ==> is_token(#[trigger] tokens(s)[i]),
        forall|i: int| 0 <= i < tokens(s).len() - 1 ==> is_closed(#[trigger] tokens(s)[i]),
    decreases s.len(),
{
    if s.len() > 0 {
        lexeme_len_bound(s);
        let n = lexeme_len(s) as int;
        let rest = s.skip(n);
        tokens_are_tokens(rest);
        if starts_token(s[0]) {
            let t = s.take(n);
            let c = s[0];
            let all = seq![t] + tokens(rest);
            assert(t[0] == c);
            if c == '|' || c == '"' {
                let tail = s.skip(1);
                quoted_len_chars(tail, c);
                assert forall|i: int| 1 <= i < t.len() - 1 implies #[trigger] t[i] != t[0] by {
                    assert(tail[i - 1] == t[i]);
                }
                if n < s.len() {
                    assert(tail[n - 2] == t[n - 1]);
                }
            } else if c != '(' && c != ')' {
                symbol_len_chars(s);
                assert forall|i: int| 0 <= i < t.len() implies !delimits(#[trigger] t[i]) by {
                    assert(t[i] == s[i]);
                }
            }
            assert(is_token(t));
            if tokens(rest).len() > 0 {
                assert(is_closed(t));
            }
            assert forall|i: int| 0 <= i < all.len() implies is_token(#[trigger] all[i]) by {
                if i > 0 {
                    assert(all[i] == tokens(rest)[i - 1]);
                }
            }
            assert forall|i: int| 0 <= i < all.len() - 1 implies is_closed(#[trigger] all[i]) by {
                if i > 0 {
                    assert(all[i] == tokens(rest)[i - 1]);
                }
            }
        }
    }
}

/// No token is empty. One that is not quoted holds no white space, and a parenthesis only if it is
/// that parenthesis alone.
pub proof fn tokens_have_their_shape(s: Seq<char>, i: int)
    requires
        0 <= i < tokens(s).len(),
    ensures
        ({
            let t = tokens(s)[i];
            &&& t.len() > 0
            &&& t[0] != '|' && t[0] != '"' ==> {
                &&& forall|j: int| 0 <= j < t.len() ==> !white_space(#[trigger] t[j])
                &&& t.contains('(') ==> t == seq!['(']
                &&& t.contains(')') ==> t == seq![')']
            }
        }),
{
    tokens_are_tokens(s);
    let t = tokens(s)[i];
    assert(is_token(t));
    if t[0] != '|' && t[0] != '"' {
        if t[0] == '(' || t[0] == ')' {
            assert(t =~= seq![t[0]]);
            assert(!white_space('(') && !white_space(')'));
        }
        assert forall|j: int| 0 <= j < t.len() implies !white_space(#[trigger] t[j]) by {
            if t[0] != '(' && t[0] != ')' {
                assert(!delimits(t[j]));
            }
        }
        if t.contains('(') {
            let j = choose|j: int| 0 <= j < t.len() && t[j] == '(';
            assert(delimits(t[j]));
        }
        if t.contains(')') {
            let j = choose|j: int| 0 <= j < t.len() && t[j] == ')';
            assert(delimits(t[j]));
        }
    }
}

pub proof fn joined_tokens(ts: Seq<Seq<char>>)
    requires
        forall|i: int| 0 <= i < ts.len() ==> is_token(#[trigger] ts[i]),
        forall|i: int| 0 <= i < ts.len() - 1 ==> is_closed(#[trigger] ts[i]),
    ensures
        tokens(joined(ts)) == ts,
    decreases ts.len(),
{
    if ts.len() == 1 {
        let t = ts[0];
        let none = Seq::<char>::empty();
        token_is_lexeme(t, none);
        assert(t + none =~= t);
        assert(t.take(t.len() as int) =~= t);
        assert(t.skip(t.len() as int) =~= none);
        assert(tokens(none) =~= Seq::<Seq<char>>::empty());
        assert(tokens(t) =~= ts);
    } else if ts.len() > 1 {
        let t = ts[0];
        let others = ts.skip(1);
        assert forall|i: int| 0 <= i < others.len() implies is_token(#[trigger] others[i]) by {
            assert(others[i] == ts[i + 1]);
        }
        assert forall|i: int| 0 <= i < others.len() - 1 implies is_closed(#[trigger] others[i]) by {
            assert(others[i] == ts[i + 1]);
        }
        joined_tokens(others);
        let rest = seq![' '] + joined(others);
        let s = joined(ts);
        assert(s =~= t + rest);
        token_is_lexeme(t, rest);
        assert(s.take(t.len() as int) =~= t);
        assert(s.skip(t.len() as int) =~= rest);
        assert(s[0] == t[0]);
        white_space_is_ignored(' ', joined(others));
        assert(tokens(s) =~= seq![t] + others);
        assert(seq![t] + others =~= ts);
    } else {
        assert(tokens(joined(ts)) =~= ts);
    }
}

/// Spacing is all that splitting forgets: the tokens of a text, written with a space between each
/// two, split into the same tokens.
pub proof fn joining_and_splitting(s: Seq<char>)
    ensures
        tokens(joined(tokens(s))) == tokens(s),
{
    tokens_are_tokens(s);
    joined_tokens(tokens(s));
}

/// The characters of each of a list of texts.
pub open spec fn texts(v: Seq<String>) -> Seq<Seq<char>> {
    Seq::new(v.len(), |i: int| v[i]@)
}

/// The end of the lexeme that starts at `start`.
fn lexeme_end(chars: &Vec<char>, start: usize) -> (end: usize)
    requires
        start < chars@.len(),
    ensures
        end == start + lexeme_len(chars@.skip(start as int)),
        start < end <= chars@.len(),
{
    let ghost s = chars@.skip(start as int);
    proof {
        lexeme_len_bound(s);
    }
    let len: usize = chars.len();
    let c = chars[start];
    assert(s[0] == c);
    let mut i: usize = start;
    if c == ';' {
        while i < len && chars[i] != '\n'
            invariant
                start <= i <= len,
                len == chars@.len(),
                s == chars@.skip(start as int),
                line_len(s) == (i - start) + line_len(chars@.skip(i as int)),
            decreases len - i,
        {
            assert(chars@.skip(i as int).skip(1) =~= chars@.skip(i + 1));
            i += 1;
        }
        i
    } else if c == '(' || c == ')' || is_white_space(c) {
        start + 1
    } else if c == '|' || c == '"' {
        i = start + 1;
        assert(s.skip(1) =~= chars@.skip(i as int));
        while i < len && chars[i] != c
            invariant
                start + 1 <= i <= len,
                len == chars@.len(),
                s == chars@.skip(start as int),
                quoted_len(s.skip(1), c) == (i - start - 1) + quoted_len(chars@.skip(i as int), c),
            decreases len - i,
        {
            assert(chars@.skip(i as int).skip(1) =~= chars@.skip(i + 1));
            i += 1;
        }
        if i < len {
            i + 1
        } else {
            i
        }
    } else {
        while i < len && chars[i] != '(' && chars[i] != ')' && !is_white_space(chars[i])
            invariant
                start <= i <= len,
                len == chars@.len(),
                s == chars@.skip(start as int),
                symbol_len(s) == (i - start) + symbol_len(chars@.skip(i as int)),
            decreases len - i,
        {
            assert(chars@.skip(i as int).skip(1) =~= chars@.skip(i + 1));
            i += 1;
        }
        i
    }
}

/// Splits a text into its tokens.
pub fn tokenize(src: &str) -> (r: Vec<String>)
    ensures
        texts(r@) == tokens(src@),
{
    let chars = chars_of(src);
    let mut out: Vec<String> = Vec::new();
    let mut i: usize = 0;
    assert(chars@.skip(0) =~= chars@);
    assert(texts(out@) + tokens(chars@.skip(0)) =~= tokens(src@));
    while i < chars.len()
        invariant
            chars@ == src@,
            i <= chars@.len(),
            texts(out@) + tokens(chars@.skip(i as int)) == tokens(src@),
        decreases chars@.len() - i,
    {
        let ghost s = chars@.skip(i as int);
        let end: usize = lexeme_end(&chars, i);
        let ghost n = end - i;
        assert(s.skip(n) =~= chars@.skip(end as int));
        let c = chars[i];
        assert(s[0] == c);
        if c != ';' && !is_white_space(c) {
            let token = text_of(&chars, i, end);
            assert(token@ =~= s.take(n));
            let ghost before = out@;
            out.push(token);
            assert(texts(out@) =~= texts(before) + seq![s.take(n)]);
            assert(texts(out@) + tokens(s.skip(n)) =~= texts(before) + (seq![s.take(n)] + tokens(
                s.skip(n),
            )));
        }
        i = end;
    }
    assert(chars@.skip(i as int) =~= Seq::<char>::empty());
    assert(texts(out@) + tokens(chars@.skip(i as int)) =~= texts(out@));
    out
}

/// The S-expression that starts at token `pos`, and the position after it, or what is wrong.
pub open spec fn read(tokens: Seq<Seq<char>>, pos: nat) -> Result<(SexprModel, nat), Seq<char>>
    decreases tokens.len() - pos, 0nat,
{
    if pos >= tokens.len() {
        Err("unexpected end of input"@)
    } else if tokens[pos as int] == "("@ {
        match read_items(tokens, pos + 1) {
            Ok((items, end)) => Ok((SexprModel::List(items), end)),
            Err(e) => Err(e),
        }
    } else if tokens[pos as int] == ")"@ {
        Err("unexpected ')'"@)
    } else {
        Ok((SexprModel::Atom(tokens[pos as int]), pos + 1))
    }
}

/// The S-expressions from token `pos` up to the parenthesis that closes their list, and the
/// position after that parenthesis, or what is wrong.
pub open spec fn read_items(tokens: Seq<Seq<char>>, pos: nat) -> Result<
    (Seq<SexprModel>, nat),
    Seq<char>,
>
    decreases tokens.len() - pos, 1nat,
{
    if pos >= tokens.len() {
        Err("unclosed '('"@)
    } else if tokens[pos as int] == ")"@ {
        Ok((Seq::empty(), pos + 1))
    } else {
        match read(tokens, pos) {
            Ok((item, next)) => if pos < next <= tokens.len() {
                match read_items(tokens, next) {
                    Ok((rest, end)) => Ok((seq![item] + rest, end)),
                    Err(e) => Err(e),
                }
            } else {
                Ok((Seq::empty(), next))
            },
            Err(e) => Err(e),
        }
    }
}

/// Reading moves forward and stays within the tokens.
pub proof fn read_advances(tokens: Seq<Seq<char>>, pos: nat)
    ensures
        read(tokens, pos) matches Ok((_, end)) ==> pos < end <= tokens.len(),
    decreases tokens.len() - pos, 0nat,
{
    if pos < tokens.len() {
        read_items_advances(tokens, pos + 1);
    }
}

pub proof fn read_items_advances(tokens: Seq<Seq<char>>, pos: nat)
    ensures
        read_items(tokens, pos) matches Ok((_, end)) ==> pos < end <= tokens.len(),
    decreases tokens.len() - pos, 1nat,
{
    if pos < tokens.len() {
        read_advances(tokens, pos);
        if let Ok((_, next)) = read(tokens, pos) {
            if pos < next <= tokens.len() {
                read_items_advances(tokens, next);
            }
        }
    }
}

/// The S-expressions from token `pos` to the end, or what is wrong.
pub open spec fn read_all(tokens: Seq<Seq<char>>, pos: nat) -> Result<Seq<SexprModel>, Seq<char>>
    decreases tokens.len() - pos,
{
    if pos >= tokens.len() {
        Ok(Seq::empty())
    } else {
        match read(tokens, pos) {
            Ok((item, next)) => if pos < next <= tokens.len() {
                match read_all(tokens, next) {
                    Ok(rest) => Ok(seq![item] + rest),
                    Err(e) => Err(e),
                }
            } else {
                Ok(Seq::empty())
            },
            Err(e) => Err(e),
        }
    }
}

/// The S-expressions that a text holds, or what is wrong with it.
pub open spec fn script(src: Seq<char>) -> Result<Seq<SexprModel>, Seq<char>> {
    read_all(tokens(src), 0)
}

/// `done` in front of what is still to be read.
pub open spec fn prepend<T>(
    done: Seq<SexprModel>,
    rest: Result<(Seq<SexprModel>, T), Seq<char>>,
) -> Result<(Seq<SexprModel>, T), Seq<char>> {
    match rest {
        Ok((items, end)) => Ok((done + items, end)),
        Err(e) => Err(e),
    }
}

/// Reads the S-expression that starts at token `pos`.
fn parse_one(tokens: &Vec<String>, pos: usize) -> (r: Result<(Sexpr, usize), ParseError>)
    ensures
        match r {
            Ok((s, next)) => read(texts(tokens@), pos as nat) == Ok::<(SexprModel, nat), Seq<char>>(
                (s@, next as nat),
            ) && pos < next <= tokens@.len(),
            Err(e) => read(texts(tokens@), pos as nat) == Err::<(SexprModel, nat), Seq<char>>(e.0@),
        },
    decreases tokens@.len() - pos,
{
    let ghost all = texts(tokens@);
    if pos >= tokens.len() {
        return Err(ParseError("unexpected end of input".to_owned()));
    }
    if same_text(tokens[pos].as_str(), "(") {
        let mut items: Vec<Sexpr> = Vec::new();
        let mut p: usize = pos + 1;
        assert(prepend(Seq::empty(), read_items(all, p as nat)) == read_items(all, p as nat)) by {
            if let Ok((rest, _)) = read_items(all, p as nat) {
                assert(Seq::<SexprModel>::empty() + rest =~= rest);
            }
        }
        assert(sexpr_models(items@) =~= Seq::empty());
        loop
            invariant
                all == texts(tokens@),
                all[pos as int] == "("@,
                pos < p <= tokens@.len(),
                read_items(all, (pos + 1) as nat) == prepend(
                    sexpr_models(items@),
                    read_items(all, p as nat),
                ),
            decreases tokens@.len() - p,
        {
            if p >= tokens.len() {
                return Err(ParseError("unclosed '('".to_owned()));
            }
            if same_text(tokens[p].as_str(), ")") {
                proof {
                    list_view(items);
                    assert(sexpr_models(items@) + Seq::<SexprModel>::empty() =~= sexpr_models(
                        items@,
                    ));
                }
                return Ok((Sexpr::List(items), p + 1));
            }
            match parse_one(tokens, p) {
                Ok((item, next)) => {
                    let ghost before = items@;
                    items.push(item);
                    proof {
                        assert(sexpr_models(items@) =~= sexpr_models(before).push(item@));
                        if let Ok((rest, end)) = read_items(all, next as nat) {
                            assert(sexpr_models(before) + (seq![item@] + rest) =~= sexpr_models(
                                items@,
                            ) + rest);
                        }
                    }
                    p = next;
                },
                Err(e) => {
                    return Err(e);
                },
            }
        }
    }
    if same_text(tokens[pos].as_str(), ")") {
        return Err(ParseError("unexpected ')'".to_owned()));
    }
    Ok((Sexpr::Atom(tokens[pos].clone()), pos + 1))
}

/// Reads a whole text as a sequence of S-expressions.
pub fn parse_all(src: &str) -> (r: Result<Vec<Sexpr>, ParseError>)
    ensures
        match r {
            Ok(v) => {
                &&& script(src@) == Ok::<Seq<SexprModel>, Seq<char>>(sexpr_models(v@))
                &&& written_all(sexpr_models(v@), v@.len()) == tokens(src@)
            },
            Err(e) => script(src@) == Err::<Seq<SexprModel>, Seq<char>>(e.0@),
        },
{
    proof {
        parsing_loses_nothing(src@);
    }
    let tokens = tokenize(src);
    let ghost all = texts(tokens@);
    let mut pos: usize = 0;
    let mut out: Vec<Sexpr> = Vec::new();
    assert(sexpr_models(out@) =~= Seq::empty());
    proof {
        if let Ok(rest) = read_all(all, 0) {
            assert(Seq::<SexprModel>::empty() + rest =~= rest);
        }
    }
    while pos < tokens.len()
        invariant
            all == texts(tokens@),
            all == self::tokens(src@),
            pos <= tokens@.len(),
            match read_all(all, pos as nat) {
                Ok(rest) => script(src@) == Ok::<Seq<SexprModel>, Seq<char>>(
                    sexpr_models(out@) + rest,
                ),
                Err(e) => script(src@) == Err::<Seq<SexprModel>, Seq<char>>(e),
            },
        decreases tokens@.len() - pos,
    {
        match parse_one(&tokens, pos) {
            Ok((expr, next)) => {
                let ghost before = out@;
                out.push(expr);
                proof {
                    assert(sexpr_models(out@) =~= sexpr_models(before).push(expr@));
                    if let Ok(rest) = read_all(all, next as nat) {
                        assert(sexpr_models(before) + (seq![expr@] + rest) =~= sexpr_models(out@)
                            + rest);
                    }
                }
                pos = next;
            },
            Err(e) => {
                return Err(e);
            },
        }
    }
    assert(sexpr_models(out@) + Seq::<SexprModel>::empty() =~= sexpr_models(out@));
    Ok(out)
}

} // verus!
