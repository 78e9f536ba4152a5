//! S-expressions and tokens written out: what parsing and splitting keep of a text.

use crate::sexpr::{
    delimits, is_closed, is_token, joined, joined_tokens, lexeme_len, lexeme_len_bound, line_len,
    quoted_len_chars, quoted_len_open, read, read_advances, read_all, read_items,
    read_items_advances, script, starts_token, symbol_len, symbol_len_end, tokens,
    tokens_are_tokens, SexprModel,
};
use crate::text::white_space;
use vstd::prelude::*;

verus! {

/// The tokens that an S-expression is written with: a symbol is its own token, and a list is an
/// opening parenthesis, the tokens of its items in order, and a closing parenthesis.
pub open spec fn written(s: SexprModel) -> Seq<Seq<char>>
    decreases s, 0nat,
{
    match s {
        SexprModel::Atom(name) => seq![name],
        SexprModel::List(items) => seq![seq!['(']] + written_all(items, items.len()) + seq![
            seq![')'],
        ],
    }
}

/// The tokens that the first `n` items are written with.
pub open spec fn written_all(items: Seq<SexprModel>, n: nat) -> Seq<Seq<char>>
    decreases items, n,
{
    if n == 0 || n > items.len() {
        Seq::empty()
    } else {
        written_all(items, (n - 1) as nat) + written(items[n - 1])
    }
}

/// Whether no symbol in an S-expression is a parenthesis.
pub open spec fn has_plain_atoms(s: SexprModel) -> bool
    decreases s,
{
    match s {
        SexprModel::Atom(name) => name != seq!['('] && name != seq![')'],
        SexprModel::List(items) => have_plain_atoms(items),
    }
}

/// The same of several.
pub open spec fn have_plain_atoms(items: Seq<SexprModel>) -> bool
    decreases items,
{
    forall|i: int| 0 <= i < items.len() ==> has_plain_atoms(#[trigger] items[i])
}

proof fn parentheses()
    ensures
        "("@ == seq!['('],
        ")"@ == seq![')'],
        "("@ != ")"@,
{
    reveal_strlit("(");
    reveal_strlit(")");
    assert("("@ =~= seq!['(']);
    assert(")"@ =~= seq![')']);
    assert("("@[0] == '(' && ")"@[0] == ')');
}

proof fn written_front(item: SexprModel, rest: Seq<SexprModel>, n: nat)
    requires
        n <= rest.len(),
    ensures
        written_all(seq![item] + rest, n + 1) == written(item) + written_all(rest, n),
    decreases n,
{
    let all = seq![item] + rest;
    assert(written_all(all, 0) =~= Seq::<Seq<char>>::empty());
    assert(written_all(rest, 0) =~= Seq::<Seq<char>>::empty());
    if n == 0 {
        assert(all[0] == item);
        assert(written_all(all, 1) =~= written(item) + written_all(rest, 0));
    } else {
        written_front(item, rest, (n - 1) as nat);
        assert(all[n as int] == rest[n - 1]);
        assert(written_all(all, n + 1) =~= written(item) + written_all(rest, n));
    }
}

proof fn read_is_written(ts: Seq<Seq<char>>, pos: nat)
    ensures
        read(ts, pos) matches Ok((s, end)) ==> {
            &&& pos < end <= ts.len()
            &&& ts.subrange(pos as int, end as int) == written(s)
            &&& has_plain_atoms(s)
        },
    decreases ts.len() - pos, 0nat,
{
    read_advances(ts, pos);
    parentheses();
    if let Ok((s, end)) = read(ts, pos) {
        if ts[pos as int] == "("@ {
            items_are_written(ts, pos + 1);
            assert(ts.subrange(pos as int, end as int) =~= seq![ts[pos as int]] + ts.subrange(
                pos as int + 1,
                end as int,
            ));
            let items = s->List_0;
            assert(ts.subrange(pos as int, end as int) =~= written(s));
        } else {
            assert(ts.subrange(pos as int, end as int) =~= written(s));
        }
    }
}

proof fn items_are_written(ts: Seq<Seq<char>>, pos: nat)
    ensures
        read_items(ts, pos) matches Ok((items, end)) ==> {
            &&& pos < end <= ts.len()
            &&& ts.subrange(pos as int, end as int) == written_all(items, items.len()) + seq![
                seq![')'],
            ]
            &&& have_plain_atoms(items)
        },
    decreases ts.len() - pos, 1nat,
{
    read_items_advances(ts, pos);
    parentheses();
    if let Ok((items, end)) = read_items(ts, pos) {
        if ts[pos as int] == ")"@ {
            assert(written_all(items, 0) =~= Seq::<Seq<char>>::empty());
            assert(ts.subrange(pos as int, end as int) =~= written_all(items, items.len())
                + seq![seq![')']]);
        } else {
            read_is_written(ts, pos);
            read_advances(ts, pos);
            let (item, next) = read(ts, pos)->Ok_0;
            items_are_written(ts, next);
            let (rest, _) = read_items(ts, next)->Ok_0;
            written_front(item, rest, rest.len());
            assert(ts.subrange(pos as int, end as int) =~= ts.subrange(pos as int, next as int)
                + ts.subrange(next as int, end as int));
            assert(items =~= seq![item] + rest);
            assert(ts.subrange(pos as int, end as int) =~= written_all(items, items.len())
                + seq![seq![')']]);
            assert forall|i: int| 0 <= i < items.len() implies has_plain_atoms(
                #[trigger] items[i],
            ) by {
                if i > 0 {
                    assert(items[i] == rest[i - 1]);
                }
            }
        }
    }
}

proof fn all_are_written(ts: Seq<Seq<char>>, pos: nat)
    requires
        pos <= ts.len(),
    ensures
        read_all(ts, pos) matches Ok(items) ==> {
            &&& ts.skip(pos as int) == written_all(items, items.len())
            &&& have_plain_atoms(items)
        },
    decreases ts.len() - pos,
{
    if let Ok(items) = read_all(ts, pos) {
        if pos >= ts.len() {
            assert(written_all(items, 0) =~= Seq::<Seq<char>>::empty());
            assert(ts.skip(pos as int) =~= written_all(items, items.len()));
        } else {
            read_is_written(ts, pos);
            read_advances(ts, pos);
            let (item, next) = read(ts, pos)->Ok_0;
            all_are_written(ts, next);
            let rest = read_all(ts, next)->Ok_0;
            written_front(item, rest, rest.len());
            assert(items =~= seq![item] + rest);
            assert(ts.skip(pos as int) =~= ts.subrange(pos as int, next as int) + ts.skip(
                next as int,
            ));
            assert forall|i: int| 0 <= i < items.len() implies has_plain_atoms(
                #[trigger] items[i],
            ) by {
                if i > 0 {
                    assert(items[i] == rest[i - 1]);
                }
            }
        }
    }
}

/// Parsing loses nothing: the S-expressions of a text, written out, are the tokens of the text.
pub proof fn parsing_loses_nothing(src: Seq<char>)
    ensures
        script(src) matches Ok(items) ==> written_all(items, items.len()) == tokens(src)
            && have_plain_atoms(items),
{
    all_are_written(tokens(src), 0);
    assert(tokens(src).skip(0) =~= tokens(src));
}

/// Whether the tokens `part` stand at `pos`.
spec fn stands_at(ts: Seq<Seq<char>>, pos: int, part: Seq<Seq<char>>) -> bool {
    &&& 0 <= pos
    &&& pos + part.len() <= ts.len()
    &&& ts.subrange(pos, pos + part.len()) == part
}

proof fn stands_in_parts(ts: Seq<Seq<char>>, pos: int, a: Seq<Seq<char>>, b: Seq<Seq<char>>)
    requires
        stands_at(ts, pos, a + b),
    ensures
        stands_at(ts, pos, a),
        stands_at(ts, pos + a.len(), b),
{
    let whole = ts.subrange(pos, pos + (a + b).len());
    assert(ts.subrange(pos, pos + a.len()) =~= whole.take(a.len() as int));
    assert((a + b).take(a.len() as int) =~= a);
    assert(ts.subrange(pos + a.len(), pos + a.len() + b.len()) =~= whole.skip(a.len() as int));
    assert((a + b).skip(a.len() as int) =~= b);
}

proof fn written_is_read(ts: Seq<Seq<char>>, pos: nat, s: SexprModel)
    requires
        has_plain_atoms(s),
        stands_at(ts, pos as int, written(s)),
    ensures
        written(s).len() > 0,
        read(ts, pos) == Ok::<(SexprModel, nat), Seq<char>>((s, pos + written(s).len())),
    decreases s, 0nat, 0nat,
{
    parentheses();
    match s {
        SexprModel::Atom(name) => {
            assert(ts.subrange(pos as int, pos as int + 1)[0] == name);
        },
        SexprModel::List(items) => {
            let open = seq![seq!['(']];
            let inner = written_all(items, items.len()) + seq![seq![')']];
            assert(written(s) =~= open + inner);
            stands_in_parts(ts, pos as int, open, inner);
            assert(ts.subrange(pos as int, pos as int + 1)[0] == open[0]);
            assert(items.skip(0) =~= items);
            items_are_read(ts, pos + 1, items, 0);
        },
    }
}

proof fn items_are_read(ts: Seq<Seq<char>>, pos: nat, items: Seq<SexprModel>, k: nat)
    requires
        k <= items.len(),
        have_plain_atoms(items),
        stands_at(
            ts,
            pos as int,
            written_all(items.skip(k as int), (items.len() - k) as nat) + seq![seq![')']],
        ),
    ensures
        read_items(ts, pos) == Ok::<(Seq<SexprModel>, nat), Seq<char>>(
            (
                items.skip(k as int),
                pos + written_all(items.skip(k as int), (items.len() - k) as nat).len() + 1,
            ),
        ),
    decreases items, 1nat, items.len() - k,
{
    parentheses();
    let close = seq![seq![')']];
    let here = items.skip(k as int);
    if k == items.len() {
        assert(written_all(here, 0) =~= Seq::<Seq<char>>::empty());
        assert(written_all(here, 0) + close =~= close);
        assert(ts.subrange(pos as int, pos as int + 1)[0] == close[0]);
        assert(here =~= Seq::<SexprModel>::empty());
    } else {
        let item = items[k as int];
        let rest = items.skip(k as int + 1);
        assert(has_plain_atoms(item));
        assert(here =~= seq![item] + rest);
        written_front(item, rest, rest.len());
        let tail = written_all(rest, rest.len()) + close;
        assert(written_all(here, here.len()) + close =~= written(item) + tail);
        stands_in_parts(ts, pos as int, written(item), tail);
        written_is_read(ts, pos, item);
        items_are_read(ts, pos + written(item).len(), items, k + 1);
        first_token_opens(item);
        assert(ts.subrange(pos as int, pos as int + written(item).len())[0] == written(item)[0]);
    }
}

/// What is written starts with no closing parenthesis.
proof fn first_token_opens(s: SexprModel)
    requires
        has_plain_atoms(s),
    ensures
        written(s).len() > 0,
        written(s)[0] != seq![')'],
{
    if s is List {
        assert(seq!['('][0] != seq![')'][0]);
    }
}

proof fn all_are_read(ts: Seq<Seq<char>>, pos: nat, items: Seq<SexprModel>)
    requires
        pos <= ts.len(),
        have_plain_atoms(items),
        ts.skip(pos as int) == written_all(items, items.len()),
    ensures
        read_all(ts, pos) == Ok::<Seq<SexprModel>, Seq<char>>(items),
    decreases items.len(),
{
    if items.len() == 0 {
        assert(written_all(items, 0).len() == 0);
        assert(items =~= Seq::<SexprModel>::empty());
    } else {
        let item = items[0];
        let rest = items.skip(1);
        assert(has_plain_atoms(item));
        assert(items =~= seq![item] + rest);
        written_front(item, rest, rest.len());
        let first = written(item);
        let tail = written_all(rest, rest.len());
        let whole = ts.skip(pos as int);
        assert(items.len() == rest.len() + 1);
        assert(whole =~= first + tail);
        assert(ts.subrange(pos as int, pos as int + first.len()) =~= whole.take(first.len() as int));
        assert((first + tail).take(first.len() as int) =~= first);
        written_is_read(ts, pos, item);
        let next = pos + first.len();
        assert(ts.skip(next as int) =~= whole.skip(first.len() as int));
        assert((first + tail).skip(first.len() as int) =~= tail);
        assert forall|i: int| 0 <= i < rest.len() implies has_plain_atoms(#[trigger] rest[i]) by {
            assert(rest[i] == items[i + 1]);
        }
        all_are_read(ts, next, rest);
    }
}

/// What is written is what is read: S-expressions without parentheses for symbols are read back
/// from any text that has their tokens.
pub proof fn what_is_written_is_read(src: Seq<char>, items: Seq<SexprModel>)
    requires
        have_plain_atoms(items),
        tokens(src) == written_all(items, items.len()),
    ensures
        script(src) == Ok::<Seq<SexprModel>, Seq<char>>(items),
{
    assert(tokens(src).skip(0) =~= tokens(src));
    all_are_read(tokens(src), 0, items);
}

/// S-expressions can be written as text, with a space between each two tokens, and parsed back, if
/// their symbols are tokens that have their ends in themselves.
pub proof fn writing_and_parsing(items: Seq<SexprModel>)
    requires
        have_plain_atoms(items),
        forall|i: int|
            0 <= i < written_all(items, items.len()).len() ==> is_token(
                #[trigger] written_all(items, items.len())[i],
            ) && is_closed(written_all(items, items.len())[i]),
    ensures
        script(joined(written_all(items, items.len()))) == Ok::<Seq<SexprModel>, Seq<char>>(items),
{
    let ts = written_all(items, items.len());
    joined_tokens(ts);
    what_is_written_is_read(joined(ts), items);
}

/// How much deeper in parentheses the token at `b` stands than that at `a`.
pub open spec fn depth(ts: Seq<Seq<char>>, a: int, b: int) -> int
    decreases b - a,
{
    if b <= a {
        0
    } else {
        depth(ts, a, b - 1) + if ts[b - 1] == seq!['('] {
            1int
        } else if ts[b - 1] == seq![')'] {
            -1int
        } else {
            0
        }
    }
}

proof fn depth_adds(ts: Seq<Seq<char>>, a: int, b: int, c: int)
    requires
        a <= b <= c,
    ensures
        depth(ts, a, c) == depth(ts, a, b) + depth(ts, b, c),
    decreases c - b,
{
    if b < c {
        depth_adds(ts, a, b, c - 1);
    }
}

proof fn read_depth(ts: Seq<Seq<char>>, pos: nat)
    requires
        pos < ts.len(),
    ensures
        match read(ts, pos) {
            Ok((_, end)) => {
                &&& pos < end <= ts.len()
                &&& depth(ts, pos as int, end as int) == 0
                &&& forall|m: int| pos <= m <= end ==> #[trigger] depth(ts, pos as int, m) >= 0
            },
            Err(e) => if ts[pos as int] == seq![')'] {
                e == "unexpected ')'"@
            } else {
                &&& e == "unclosed '('"@
                &&& forall|m: int|
                    pos < m <= ts.len() ==> #[trigger] depth(ts, pos as int, m) >= 1
            },
        },
    decreases ts.len() - pos, 0nat,
{
    parentheses();
    read_advances(ts, pos);
    let p = pos as int;
    assert(depth(ts, p, p) == 0);
    assert(depth(ts, p, p + 1) == depth(ts, p, p) + depth(ts, p, p + 1));
    if ts[p] == "("@ {
        items_depth(ts, pos + 1);
        assert(depth(ts, p, p + 1) == 1);
        match read_items(ts, pos + 1) {
            Ok((_, end)) => {
                assert forall|m: int| p <= m <= end implies #[trigger] depth(ts, p, m) >= 0 by {
                    if m > p {
                        depth_adds(ts, p, p + 1, m);
                        assert(m < end ==> depth(ts, p + 1, m) >= 0);
                    }
                }
                depth_adds(ts, p, p + 1, end as int);
            },
            Err(_) => {
                assert forall|m: int| p < m <= ts.len() implies #[trigger] depth(ts, p, m) >= 1 by {
                    depth_adds(ts, p, p + 1, m);
                    assert(depth(ts, p + 1, m) >= 0);
                }
            },
        }
    } else if ts[p] != ")"@ {
        assert(depth(ts, p, p + 1) == 0);
        assert forall|m: int| p <= m <= p + 1 implies #[trigger] depth(ts, p, m) >= 0 by {}
    }
}

proof fn items_depth(ts: Seq<Seq<char>>, pos: nat)
    ensures
        match read_items(ts, pos) {
            Ok((_, end)) => {
                &&& pos < end <= ts.len()
                &&& depth(ts, pos as int, end as int) == -1
                &&& forall|m: int| pos <= m < end ==> #[trigger] depth(ts, pos as int, m) >= 0
            },
            Err(e) => {
                &&& e == "unclosed '('"@
                &&& forall|m: int|
                    pos <= m <= ts.len() ==> #[trigger] depth(ts, pos as int, m) >= 0
            },
        },
    decreases ts.len() - pos, 1nat,
{
    parentheses();
    read_items_advances(ts, pos);
    let p = pos as int;
    assert(depth(ts, p, p) == 0);
    if pos >= ts.len() {
        assert forall|m: int| p <= m <= ts.len() implies #[trigger] depth(ts, p, m) >= 0 by {}
    } else if ts[p] == ")"@ {
        assert(depth(ts, p, p + 1) == -1) by {
            assert(depth(ts, p, p + 1) == depth(ts, p, p) - 1);
        }
        assert forall|m: int| p <= m < p + 1 implies #[trigger] depth(ts, p, m) >= 0 by {}
    } else {
        read_depth(ts, pos);
        match read(ts, pos) {
            Ok((_, next)) => {
                items_depth(ts, next);
                match read_items(ts, next) {
                    Ok((_, end)) => {
                        depth_adds(ts, p, next as int, end as int);
                        assert forall|m: int| p <= m < end implies #[trigger] depth(
                            ts,
                            p,
                            m,
                        ) >= 0 by {
                            if m > next {
                                depth_adds(ts, p, next as int, m);
                                assert(depth(ts, next as int, m) >= 0);
                            }
                        }
                    },
                    Err(_) => {
                        assert forall|m: int| p <= m <= ts.len() implies #[trigger] depth(
                            ts,
                            p,
                            m,
                        ) >= 0 by {
                            if m > next {
                                depth_adds(ts, p, next as int, m);
                                assert(depth(ts, next as int, m) >= 0);
                            }
                        }
                    },
                }
            },
            Err(_) => {
                assert forall|m: int| p <= m <= ts.len() implies #[trigger] depth(
                    ts,
                    p,
                    m,
                ) >= 0 by {}
            },
        }
    }
}

proof fn all_depth(ts: Seq<Seq<char>>, pos: nat)
    requires
        pos <= ts.len(),
    ensures
        match read_all(ts, pos) {
            Ok(_) => {
                &&& depth(ts, pos as int, ts.len() as int) == 0
                &&& forall|m: int|
                    pos <= m <= ts.len() ==> #[trigger] depth(ts, pos as int, m) >= 0
            },
            Err(e) => {
                ||| e == "unclosed '('"@ && depth(ts, pos as int, ts.len() as int) > 0 && (forall|
                    m: int,
                |
                    pos <= m <= ts.len() ==> #[trigger] depth(ts, pos as int, m) >= 0)
                ||| e == "unexpected ')'"@ && (exists|m: int|
                    pos <= m <= ts.len() && #[trigger] depth(ts, pos as int, m) < 0)
            },
        },
    decreases ts.len() - pos,
{
    parentheses();
    let p = pos as int;
    let len = ts.len() as int;
    assert(depth(ts, p, p) == 0);
    if pos >= ts.len() {
        assert forall|m: int| p <= m <= len implies #[trigger] depth(ts, p, m) >= 0 by {}
    } else {
        read_depth(ts, pos);
        match read(ts, pos) {
            Ok((_, next)) => {
                all_depth(ts, next);
                depth_adds(ts, p, next as int, len);
                if forall|m: int| next <= m <= len ==> #[trigger] depth(ts, next as int, m) >= 0 {
                    assert forall|m: int| p <= m <= len implies #[trigger] depth(ts, p, m) >= 0 by {
                        if m > next {
                            depth_adds(ts, p, next as int, m);
                            assert(depth(ts, next as int, m) >= 0);
                        }
                    }
                } else {
                    let m = choose|m: int|
                        next <= m <= len && #[trigger] depth(ts, next as int, m) < 0;
                    depth_adds(ts, p, next as int, m);
                    assert(depth(ts, p, m) < 0);
                }
            },
            Err(_) => {
                if ts[p] == ")"@ {
                    assert(depth(ts, p, p + 1) == depth(ts, p, p) - 1);
                } else {
                    assert(depth(ts, p, len) >= 1);
                    assert forall|m: int| p <= m <= len implies #[trigger] depth(ts, p, m) >= 0 by {}
                }
            },
        }
    }
}

/// Exactly the texts whose parentheses match can be parsed. Otherwise the error tells whether a
/// parenthesis closes nothing, or one is left open.
pub proof fn parentheses_decide(src: Seq<char>)
    ensures
        ({
            let ts = tokens(src);
            let len = ts.len() as int;
            let dips = exists|m: int| 0 <= m <= len && #[trigger] depth(ts, 0, m) < 0;
            match script(src) {
                Ok(_) => !dips && depth(ts, 0, len) == 0,
                Err(e) => if dips {
                    e == "unexpected ')'"@
                } else {
                    e == "unclosed '('"@ && depth(ts, 0, len) > 0
                },
            }
        }),
{
    let ts = tokens(src);
    all_depth(ts, 0);
    reveal_strlit("unexpected ')'");
    reveal_strlit("unclosed '('");
    assert("unexpected ')'"@.len() != "unclosed '('"@.len());
}

/// Whether a text is made of white space and comments. A comment is closed by the end of its line,
/// or by the end of the whole text.
pub open spec fn is_gap(g: Seq<char>, last: bool) -> bool
    decreases g.len(),
{
    if g.len() == 0 {
        true
    } else if white_space(g[0]) {
        is_gap(g.skip(1), last)
    } else {
        &&& g[0] == ';'
        &&& exists|k: int|
            1 <= k <= g.len() && is_comment(#[trigger] g.take(k)) && (if k == g.len() {
                last
            } else {
                g[k] == '\n' && is_gap(g.skip(k), last)
            })
    }
}

/// Whether a text is a semicolon with the rest of a line.
pub open spec fn is_comment(c: Seq<char>) -> bool {
    c.len() > 0 && c[0] == ';' && !c.contains('\n')
}

/// Whether a token ends where `rest` begins: a symbol ends at the end of the text, at a parenthesis
/// or at white space, and a quotation that is not closed runs to the end of the text.
pub open spec fn ends_before(t: Seq<char>, rest: Seq<char>) -> bool {
    if t[0] == '(' || t[0] == ')' {
        true
    } else if t[0] == '|' || t[0] == '"' {
        is_closed(t) || rest.len() == 0
    } else {
        rest.len() == 0 || rest[0] == '(' || rest[0] == ')' || white_space(rest[0])
    }
}

/// Whether a text is laid out as these tokens, with gaps of white space and comments before, between
/// and after them.
pub open spec fn laid_out(s: Seq<char>, gaps: Seq<Seq<char>>, ts: Seq<Seq<char>>) -> bool
    decreases ts.len(),
{
    &&& gaps.len() == ts.len() + 1
    &&& if ts.len() == 0 {
        s == gaps[0] && is_gap(s, true)
    } else {
        let n = (gaps[0].len() + ts[0].len()) as int;
        &&& n <= s.len()
        &&& s.take(n) == gaps[0] + ts[0]
        &&& is_gap(gaps[0], false)
        &&& is_token(ts[0])
        &&& ends_before(ts[0], s.skip(n))
        &&& laid_out(s.skip(n), gaps.skip(1), ts.skip(1))
    }
}

proof fn line_ends(s: Seq<char>)
    ensures
        line_len(s) <= s.len(),
        !s.take(line_len(s) as int).contains('\n'),
        line_len(s) < s.len() ==> s[line_len(s) as int] == '\n',
    decreases s.len(),
{
    if s.len() > 0 && s[0] != '\n' {
        let rest = s.skip(1);
        line_ends(rest);
        let n = line_len(s) as int;
        let line = s.take(n);
        if line.contains('\n') {
            let i = choose|i: int| 0 <= i < line.len() && line[i] == '\n';
            assert(rest.take(n - 1)[i - 1] == '\n');
        }
        if n < s.len() {
            assert(rest[n - 1] == s[n]);
        }
    }
}

proof fn symbol_ends(s: Seq<char>)
    ensures
        symbol_len(s) <= s.len(),
        symbol_len(s) < s.len() ==> delimits(s[symbol_len(s) as int]),
    decreases s.len(),
{
    if s.len() > 0 && !delimits(s[0]) {
        let rest = s.skip(1);
        symbol_ends(rest);
        if symbol_len(s) < s.len() {
            assert(rest[symbol_len(rest) as int] == s[symbol_len(s) as int]);
        }
    }
}

/// Splitting loses nothing: every text is laid out as its tokens.
pub proof fn splitting_loses_nothing(s: Seq<char>) -> (gaps: Seq<Seq<char>>)
    ensures
        laid_out(s, gaps, tokens(s)),
    decreases s.len(),
{
    if s.len() == 0 {
        let gaps = seq![s];
        assert(s =~= gaps[0]);
        gaps
    } else {
        lexeme_len_bound(s);
        let n = lexeme_len(s) as int;
        let rest = s.skip(n);
        let later = splitting_loses_nothing(rest);
        let ts = tokens(rest);
        tokens_are_tokens(s);
        if starts_token(s[0]) {
            let t = s.take(n);
            let none = Seq::<char>::empty();
            let gaps = seq![none] + later;
            let all = seq![t] + ts;
            assert(all[0] == t);
            assert(is_token(t)) by {
                assert(tokens(s)[0] == t);
            }
            assert(gaps.skip(1) =~= later);
            assert(all.skip(1) =~= ts);
            assert(s.take(n) =~= none + t);
            assert(ends_before(t, rest)) by {
                let c = s[0];
                if c == '|' || c == '"' {
                    quoted_len_chars(s.skip(1), c);
                    if rest.len() > 0 {
                        assert(t.last() == s[n - 1]);
                        assert(s.skip(1)[n - 2] == s[n - 1]);
                    }
                } else if c != '(' && c != ')' {
                    symbol_ends(s);
                    if rest.len() > 0 {
                        assert(rest[0] == s[n]);
                    }
                }
            }
            gaps
        } else {
            let x = s.take(n);
            let first = x + later[0];
            let gaps = seq![first] + later.skip(1);
            if s[0] == ';' {
                line_ends(s);
            }
            if ts.len() == 0 {
                assert(first =~= s);
                gap_extended(x, rest, true);
                assert(x + rest =~= s);
                gaps
            } else {
                let m = (later[0].len() + ts[0].len()) as int;
                if s[0] == ';' {
                    assert(n < s.len());
                    assert(rest[0] == '\n');
                    if later[0].len() == 0 {
                        assert(rest.take(m) =~= later[0] + ts[0]);
                        assert(rest.take(m)[0] == ts[0][0]);
                    } else {
                        assert(rest.take(m)[0] == later[0][0]);
                    }
                }
                gap_extended(x, later[0], false);
                let k = (first.len() + ts[0].len()) as int;
                assert(s.skip(k) =~= rest.skip(m));
                assert(s.take(k) =~= x + rest.take(m));
                assert(s.take(k) =~= first + ts[0]);
                assert(gaps.skip(1) =~= later.skip(1));
                gaps
            }
        }
    }
}

/// White space or a comment before a gap makes a longer gap.
proof fn gap_extended(x: Seq<char>, g: Seq<char>, last: bool)
    requires
        is_gap(g, last),
        x.len() > 0,
        x.len() == 1 && white_space(x[0]) || is_comment(x) && (if g.len() == 0 {
            last
        } else {
            g[0] == '\n'
        }),
    ensures
        is_gap(x + g, last),
{
    let whole = x + g;
    if white_space(whole[0]) {
        if x.len() == 1 {
            assert(whole.skip(1) =~= g);
        } else {
            assert(is_comment(x));
            assert(!white_space(';'));
        }
    } else {
        let k = x.len() as int;
        assert(whole.take(k) =~= x);
        assert(whole.skip(k) =~= g);
        assert(is_comment(whole.take(k)));
    }
}

/// A gap has no tokens.
proof fn gap_skipped(g: Seq<char>, rest: Seq<char>, last: bool)
    requires
        is_gap(g, last),
        last ==> rest.len() == 0,
    ensures
        tokens(g + rest) == tokens(rest),
    decreases g.len(),
{
    let s = g + rest;
    if g.len() == 0 {
        assert(s =~= rest);
    } else if white_space(g[0]) {
        gap_skipped(g.skip(1), rest, last);
        assert(s[0] == g[0]);
        assert(g[0] != ';' && g[0] != '(' && g[0] != ')');
        assert(s.skip(1) =~= g.skip(1) + rest);
        assert(lexeme_len(s) == 1);
    } else {
        let k = choose|k: int|
            1 <= k <= g.len() && is_comment(#[trigger] g.take(k)) && (if k == g.len() {
                last
            } else {
                g[k] == '\n' && is_gap(g.skip(k), last)
            });
        let c = g.take(k);
        assert(s[0] == ';');
        assert(s.take(k) =~= c);
        line_is(s, k);
        if k == g.len() {
            assert(s.skip(k) =~= rest);
        } else {
            gap_skipped(g.skip(k), rest, last);
            assert(s.skip(k) =~= g.skip(k) + rest);
        }
    }
}

proof fn line_is(s: Seq<char>, k: int)
    requires
        0 <= k <= s.len(),
        !s.take(k).contains('\n'),
        k < s.len() ==> s[k] == '\n',
    ensures
        line_len(s) == k,
    decreases k,
{
    if k > 0 {
        assert(s.take(k)[0] == s[0]);
        let rest = s.skip(1);
        assert(!rest.take(k - 1).contains('\n')) by {
            let short = rest.take(k - 1);
            if short.contains('\n') {
                let i = choose|i: int| 0 <= i < short.len() && short[i] == '\n';
                assert(s.take(k)[i + 1] == '\n');
            }
        }
        line_is(rest, k - 1);
    }
}

/// A text has only one layout: tokens that it is laid out as are its tokens.
pub proof fn layout_decides_tokens(s: Seq<char>, gaps: Seq<Seq<char>>, ts: Seq<Seq<char>>)
    requires
        laid_out(s, gaps, ts),
    ensures
        tokens(s) == ts,
    decreases ts.len(),
{
    if ts.len() == 0 {
        gap_skipped(s, Seq::empty(), true);
        assert(s + Seq::<char>::empty() =~= s);
        assert(tokens(Seq::<char>::empty()) =~= Seq::<Seq<char>>::empty());
        assert(ts =~= Seq::<Seq<char>>::empty());
    } else {
        let n = (gaps[0].len() + ts[0].len()) as int;
        let rest = s.skip(n);
        let t = ts[0];
        layout_decides_tokens(rest, gaps.skip(1), ts.skip(1));
        let inner = t + rest;
        assert(s =~= s.take(n) + rest);
        assert(s =~= gaps[0] + inner);
        gap_skipped(gaps[0], inner, false);
        first_lexeme(t, rest);
        assert(inner[0] == t[0]);
        assert(inner.take(t.len() as int) =~= t);
        assert(inner.skip(t.len() as int) =~= rest);
        assert(tokens(inner) =~= seq![t] + ts.skip(1));
        assert(seq![t] + ts.skip(1) =~= ts);
    }
}

proof fn first_lexeme(t: Seq<char>, rest: Seq<char>)
    requires
        is_token(t),
        ends_before(t, rest),
    ensures
        lexeme_len(t + rest) == t.len(),
{
    let s = t + rest;
    let c = t[0];
    let n = t.len() as int;
    assert(s[0] == c);
    if c == '(' || c == ')' {
    } else if c == '|' || c == '"' {
        let tail = s.skip(1);
        let end = if n > 1 && t.last() == c {
            n - 2
        } else {
            n - 1
        };
        assert forall|i: int| 0 <= i < end implies #[trigger] tail[i] != c by {
            assert(tail[i] == t[i + 1]);
        }
        if n > 1 && t.last() == c {
            assert(tail[end] == t[n - 1]);
        }
        quoted_len_open(tail, c, end);
    } else {
        assert forall|i: int| 0 <= i < n implies !delimits(#[trigger] s[i]) by {
            assert(s[i] == t[i]);
        }
        if rest.len() > 0 {
            assert(s[n] == rest[0]);
        }
        symbol_len_end(s, n);
    }
}

} // verus!
