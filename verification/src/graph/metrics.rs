//! Code-quality metrics: cyclomatic complexity, fan-in / fan-out, depth of
//! inheritance, and dead-code detection by reachability from entry points.
use vstd::prelude::*;
use vstd::string::StringExecFns;

use vstd::hash_map::StringHashMap;

use crate::graph::call_graph::CallGraph;
use crate::graph::topology::{any_edge, incident_edges};
use crate::graph::type_hierarchy::TypeHierarchy;
use crate::text::{
    char_is_whitespace, chars_eq, chars_of, first_newline, join_lines, lines_of, split_lines, strip_cr, vecs_view, contains_chars, contains_seq, decimal, decimal_string, has_prefix, is_white_space, occurs_at_exec, slice_to_vec, starts_with_chars, string_of,
};
use crate::types::Symbol;

verus! {

/// Characters that separate the tokens of the lexical complexity scan:
/// white space and `( ) { } ; ,`.
pub open spec fn is_separator(c: char) -> bool {
    is_white_space(c) || c == '(' || c == ')' || c == '{' || c == '}' || c == ';' || c == ','
}

fn separator(c: char) -> (r: bool)
    ensures
        r == is_separator(c),
{
    char_is_whitespace(c) || c == '(' || c == ')' || c == '{' || c == '}' || c == ';' || c == ','
}

/// The number of leading characters of `s` that are not separators.
pub open spec fn run_len(s: Seq<char>) -> nat
    decreases s.len(),
{
    if s.len() == 0 || is_separator(s[0]) {
        0
    } else {
        1 + run_len(s.drop_first())
    }
}

/// A run is no longer than the text.
pub proof fn lemma_run_len_bound(s: Seq<char>)
    ensures
        run_len(s) <= s.len(),
        s.len() > 0 && !is_separator(s[0]) ==> run_len(s) >= 1,
    decreases s.len(),
{
    if s.len() > 0 && !is_separator(s[0]) {
        lemma_run_len_bound(s.drop_first());
    }
}

/// A run that ends at a separator or at the end has the run's length.
proof fn lemma_run_len_exact(s: Seq<char>, k: int)
    requires
        0 <= k <= s.len(),
        forall|m: int| 0 <= m < k ==> !is_separator(#[trigger] s[m]),
        k == s.len() || is_separator(s[k]),
    ensures
        run_len(s) == k,
    decreases k,
{
    if k > 0 {
        assert forall|m: int| 0 <= m < k - 1 implies !is_separator(#[trigger] s.drop_first()[m]) by {
            assert(s.drop_first()[m] == s[m + 1]);
        }
        if k < s.len() {
            assert(s.drop_first()[k - 1] == s[k]);
        }
        lemma_run_len_exact(s.drop_first(), k - 1);
    }
}

/// The tokens of `s`: its maximal runs of non-separator characters.
pub open spec fn tokens(s: Seq<char>) -> Seq<Seq<char>>
    decreases s.len(),
{
    if s.len() == 0 {
        Seq::empty()
    } else if is_separator(s[0]) {
        tokens(s.drop_first())
    } else {
        proof {
            lemma_run_len_bound(s);
        }
        seq![s.take(run_len(s) as int)] + tokens(s.skip(run_len(s) as int))
    }
}

/// Words that open a branch: conditionals, loops, pattern matches,
/// exception handlers and the short-circuit operators.
pub open spec fn is_branch_word(t: Seq<char>) -> bool {
    ||| t == "if"@
    ||| t == "elif"@
    ||| t == "elsif"@
    ||| t == "elseif"@
    ||| t == "for"@
    ||| t == "while"@
    ||| t == "loop"@
    ||| t == "match"@
    ||| t == "case"@
    ||| t == "switch"@
    ||| t == "catch"@
    ||| t == "except"@
    ||| t == "rescue"@
    ||| t == "finally"@
    ||| t == "&&"@
    ||| t == "||"@
}

/// How many tokens are branch words or a lone `?` (a ternary).
pub open spec fn branch_tokens(ts: Seq<Seq<char>>) -> nat
    decreases ts.len(),
{
    if ts.len() == 0 {
        0
    } else {
        (if is_branch_word(ts[0]) || ts[0] == "?"@ {
            1nat
        } else {
            0nat
        }) + branch_tokens(ts.drop_first())
    }
}

/// One more token adds one to the branch count exactly when it is a
/// branch word or a lone `?`, and nothing otherwise.
pub proof fn law_branch_token_adds_one(ts: Seq<Seq<char>>, t: Seq<char>)
    ensures
        branch_tokens(ts.push(t)) == branch_tokens(ts) + if is_branch_word(t) || t == "?"@ {
            1nat
        } else {
            0nat
        },
    decreases ts.len(),
{
    if ts.len() > 0 {
        assert(ts.push(t).drop_first() =~= ts.drop_first().push(t));
        assert(ts.push(t)[0] == ts[0]);
        law_branch_token_adds_one(ts.drop_first(), t);
    } else {
        assert(ts.push(t).drop_first() =~= Seq::<Seq<char>>::empty());
        assert(ts.push(t)[0] == t);
        assert(branch_tokens(ts.push(t).drop_first()) == 0);
    }
}

/// Non-overlapping occurrences of `p` in `s`, scanning from the left.
pub open spec fn match_count(s: Seq<char>, p: Seq<char>) -> nat
    decreases s.len(),
{
    if p.len() == 0 || s.len() < p.len() {
        0
    } else if s.take(p.len() as int) == p {
        1 + match_count(s.skip(p.len() as int), p)
    } else {
        match_count(s.drop_first(), p)
    }
}

/// The lexical cyclomatic complexity of a text: one, plus one per branch
/// word or `?` token, plus one per `??` and per `?.`.
pub open spec fn lexical_complexity(src: Seq<char>) -> int {
    (1 + branch_tokens(tokens(src)) + match_count(src, "??"@) + match_count(src, "?."@)) as int
}

/// The complexity of a symbol: the parser's value when it has one, else the
/// lexical complexity of its source text.
pub open spec fn complexity_of(symbol: Symbol, src: Seq<char>) -> int {
    match symbol.complexity {
        Some(c) => c as int,
        None => lexical_complexity(src),
    }
}

/// A branch word is one token: none of its characters separates tokens or
/// is a `?`.
proof fn lemma_branch_word_plain(w: Seq<char>)
    requires
        is_branch_word(w),
    ensures
        w.len() > 0,
        forall|i: int| 0 <= i < w.len() ==> !is_separator(#[trigger] w[i]) && w[i] != '?',
{
    reveal_strlit("if");
    reveal_strlit("elif");
    reveal_strlit("elsif");
    reveal_strlit("elseif");
    reveal_strlit("for");
    reveal_strlit("while");
    reveal_strlit("loop");
    reveal_strlit("match");
    reveal_strlit("case");
    reveal_strlit("switch");
    reveal_strlit("catch");
    reveal_strlit("except");
    reveal_strlit("rescue");
    reveal_strlit("finally");
    reveal_strlit("&&");
    reveal_strlit("||");
}

/// A run is not lengthened by text that starts with a separator.
proof fn lemma_run_len_concat(a: Seq<char>, b: Seq<char>)
    requires
        b.len() > 0,
        is_separator(b[0]),
    ensures
        run_len(a + b) == run_len(a),
    decreases a.len(),
{
    if a.len() == 0 {
        assert(a + b =~= b);
    } else {
        assert((a + b)[0] == a[0]);
        if !is_separator(a[0]) {
            assert((a + b).drop_first() =~= a.drop_first() + b);
            lemma_run_len_concat(a.drop_first(), b);
        }
    }
}

/// The tokens of two texts joined at a separator are those of each.
proof fn lemma_tokens_concat(a: Seq<char>, b: Seq<char>)
    requires
        b.len() > 0,
        is_separator(b[0]),
    ensures
        tokens(a + b) == tokens(a) + tokens(b),
    decreases a.len(),
{
    if a.len() == 0 {
        assert(a + b =~= b);
        assert(tokens(a) + tokens(b) =~= tokens(b));
    } else {
        assert((a + b)[0] == a[0]);
        if is_separator(a[0]) {
            assert((a + b).drop_first() =~= a.drop_first() + b);
            lemma_tokens_concat(a.drop_first(), b);
        } else {
            lemma_run_len_concat(a, b);
            lemma_run_len_bound(a);
            let r = run_len(a) as int;
            assert((a + b).take(r) =~= a.take(r));
            assert((a + b).skip(r) =~= a.skip(r) + b);
            lemma_tokens_concat(a.skip(r), b);
            assert(seq![a.take(r)] + (tokens(a.skip(r)) + tokens(b)) =~= (seq![a.take(r)] + tokens(a.skip(r)))
                + tokens(b));
        }
    }
}

/// A text without separators is one token.
proof fn lemma_tokens_single(w: Seq<char>)
    requires
        w.len() > 0,
        forall|i: int| 0 <= i < w.len() ==> !is_separator(#[trigger] w[i]),
    ensures
        tokens(w) == seq![w],
{
    lemma_run_len_exact(w, w.len() as int);
    assert(w.take(w.len() as int) =~= w);
    assert(w.skip(w.len() as int) =~= Seq::<char>::empty());
    assert(tokens(Seq::<char>::empty()) =~= Seq::<Seq<char>>::empty());
    assert(seq![w] + Seq::<Seq<char>>::empty() =~= seq![w]);
}

/// Two-character matches of two joined texts are those of each, when the
/// second text cannot complete a match begun at the end of the first.
proof fn lemma_match_count_concat(a: Seq<char>, b: Seq<char>, p: Seq<char>)
    requires
        p.len() == 2,
        b.len() > 0,
        b[0] != p[1],
    ensures
        match_count(a + b, p) == match_count(a, p) + match_count(b, p),
    decreases a.len(),
{
    if a.len() == 0 {
        assert(a + b =~= b);
    } else if a.len() == 1 {
        assert((a + b).take(2)[1] == b[0]);
        assert((a + b).drop_first() =~= b);
    } else {
        assert((a + b).take(2) =~= a.take(2));
        if a.take(2) == p {
            assert((a + b).skip(2) =~= a.skip(2) + b);
            lemma_match_count_concat(a.skip(2), b, p);
        } else {
            assert((a + b).drop_first() =~= a.drop_first() + b);
            lemma_match_count_concat(a.drop_first(), b, p);
        }
    }
}

/// A pattern never matches a text that lacks its first character.
proof fn lemma_match_count_none(s: Seq<char>, p: Seq<char>)
    requires
        p.len() >= 1,
        forall|i: int| 0 <= i < s.len() ==> #[trigger] s[i] != p[0],
    ensures
        match_count(s, p) == 0,
    decreases s.len(),
{
    if s.len() >= p.len() {
        assert(s.take(p.len() as int)[0] == s[0]);
        assert forall|i: int| 0 <= i < s.drop_first().len() implies #[trigger] s.drop_first()[i] != p[0] by {
            assert(s.drop_first()[i] == s[i + 1]);
        }
        lemma_match_count_none(s.drop_first(), p);
    }
}

/// Where a symbol carries no parser value, appending a space and one branch
/// word to its source text raises its complexity by exactly one.
pub proof fn law_branch_word_adds_one(symbol: Symbol, src: Seq<char>, w: Seq<char>)
    requires
        symbol.complexity is None,
        is_branch_word(w),
    ensures
        complexity_of(symbol, src + " "@ + w) == complexity_of(symbol, src) + 1,
{
    reveal_strlit(" ");
    reveal_strlit("??");
    reveal_strlit("?.");
    lemma_branch_word_plain(w);
    let sw = " "@ + w;
    assert(src + " "@ + w =~= src + sw);
    assert(sw[0] == ' ');
    assert(is_separator(' '));
    lemma_tokens_concat(src, sw);
    assert(sw.drop_first() =~= w);
    lemma_tokens_single(w);
    assert(tokens(sw) == tokens(w));
    assert(tokens(src) + seq![w] =~= tokens(src).push(w));
    law_branch_token_adds_one(tokens(src), w);
    assert forall|i: int| 0 <= i < sw.len() implies #[trigger] sw[i] != '?' by {
        if i > 0 {
            assert(sw[i] == w[i - 1]);
        }
    }
    lemma_match_count_concat(src, sw, "??"@);
    lemma_match_count_concat(src, sw, "?."@);
    lemma_match_count_none(sw, "??"@);
    lemma_match_count_none(sw, "?."@);
}

/// Tokens end at white space and at each of `( ) { } ; ,`: where a symbol
/// carries no parser value, appending a space, one of the branch words and
/// such a character to its source text raises its complexity by exactly one,
/// so `if(`, `while{` or `match;` each count as a branch.
pub proof fn law_branch_word_before_punctuation(symbol: Symbol, src: Seq<char>, w: Seq<char>, c: char)
    requires
        symbol.complexity is None,
        w == "if"@ || w == "elif"@ || w == "elsif"@ || w == "elseif"@ || w == "for"@ || w == "while"@ || w == "loop"@
            || w == "match"@ || w == "case"@ || w == "switch"@ || w == "catch"@ || w == "except"@ || w == "rescue"@
            || w == "finally"@ || w == "&&"@ || w == "||"@,
        c == '(' || c == ')' || c == '{' || c == '}' || c == ';' || c == ',' || c == ' ' || c == '\t' || c == '\n'
            || c == '\r',
    ensures
        complexity_of(symbol, src + " "@ + w + seq![c]) == complexity_of(symbol, src) + 1,
{
    reveal_strlit(" ");
    reveal_strlit("??");
    reveal_strlit("?.");
    assert(is_branch_word(w));
    lemma_branch_word_plain(w);
    let tail = seq![c];
    let wc = w + tail;
    let sw = " "@ + wc;
    assert(src + " "@ + w + tail =~= src + sw);
    assert(sw[0] == ' ');
    assert(is_separator(' '));
    assert(is_separator(c));
    lemma_tokens_concat(src, sw);
    assert(sw.drop_first() =~= wc);
    assert(tail[0] == c);
    lemma_tokens_concat(w, tail);
    lemma_tokens_single(w);
    assert(tail.drop_first() =~= Seq::<char>::empty());
    assert(is_separator(tail[0]));
    assert(tokens(Seq::<char>::empty()) =~= Seq::<Seq<char>>::empty());
    assert(tokens(tail) == tokens(tail.drop_first()));
    assert(tokens(tail) =~= Seq::<Seq<char>>::empty());
    assert(tokens(sw) == tokens(wc));
    assert(tokens(wc) =~= seq![w]);
    assert(tokens(src) + seq![w] =~= tokens(src).push(w));
    law_branch_token_adds_one(tokens(src), w);
    assert forall|i: int| 0 <= i < sw.len() implies #[trigger] sw[i] != '?' by {
        if 0 < i < sw.len() - 1 {
            assert(sw[i] == w[i - 1]);
        } else if i == sw.len() - 1 {
            assert(sw[i] == c);
        }
    }
    lemma_match_count_concat(src, sw, "??"@);
    lemma_match_count_concat(src, sw, "?."@);
    lemma_match_count_none(sw, "??"@);
    lemma_match_count_none(sw, "?."@);
}

/// Branch tokens of two token lists joined are those of each.
proof fn lemma_branch_tokens_concat(a: Seq<Seq<char>>, b: Seq<Seq<char>>)
    ensures
        branch_tokens(a + b) == branch_tokens(a) + branch_tokens(b),
    decreases a.len(),
{
    if a.len() == 0 {
        assert(a + b =~= b);
    } else {
        assert((a + b)[0] == a[0]);
        assert((a + b).drop_first() =~= a.drop_first() + b);
        lemma_branch_tokens_concat(a.drop_first(), b);
    }
}

/// Text appended after a space adds its own count to the lexical
/// complexity.
proof fn lemma_append_spaced(src: Seq<char>, sw: Seq<char>)
    requires
        sw.len() > 0,
        sw[0] == ' ',
    ensures
        lexical_complexity(src + sw) == lexical_complexity(src) + branch_tokens(tokens(sw)) + match_count(sw, "??"@)
            + match_count(sw, "?."@),
{
    reveal_strlit("??");
    reveal_strlit("?.");
    assert(is_separator(' '));
    lemma_tokens_concat(src, sw);
    lemma_branch_tokens_concat(tokens(src), tokens(sw));
    lemma_match_count_concat(src, sw, "??"@);
    lemma_match_count_concat(src, sw, "?."@);
}

/// Where a symbol carries no parser value, appending a space and a word of
/// letters, digits, `_`, `&` or `|` to its source text adds one to its
/// complexity when the word is one of `if`, `elif`, `elsif`, `elseif`,
/// `for`, `while`, `loop`, `match`, `case`, `switch`, `catch`, `except`,
/// `rescue`, `finally`, `&&`, `||`, and nothing otherwise.
pub proof fn law_word_token_counts(symbol: Symbol, src: Seq<char>, t: Seq<char>)
    requires
        symbol.complexity is None,
        t.len() > 0,
        forall|i: int| 0 <= i < t.len() ==> {
            let ch = #[trigger] t[i];
            ('a' <= ch && ch <= 'z') || ('A' <= ch && ch <= 'Z') || ('0' <= ch && ch <= '9') || ch == '_' || ch == '&' || ch == '|'
        },
    ensures
        complexity_of(symbol, src + " "@ + t) == complexity_of(symbol, src) + if t == "if"@ || t == "elif"@ || t == "elsif"@
            || t == "elseif"@ || t == "for"@ || t == "while"@ || t == "loop"@ || t == "match"@ || t == "case"@ || t == "switch"@
            || t == "catch"@ || t == "except"@ || t == "rescue"@ || t == "finally"@ || t == "&&"@ || t == "||"@ {
            1int
        } else {
            0int
        },
{
    reveal_strlit(" ");
    reveal_strlit("?");
    reveal_strlit("??");
    reveal_strlit("?.");
    let sw = " "@ + t;
    assert(src + " "@ + t =~= src + sw);
    assert(sw[0] == ' ');
    lemma_append_spaced(src, sw);
    assert forall|i: int| 0 <= i < t.len() implies !is_separator(#[trigger] t[i]) && t[i] != '?' by {
        let ch = t[i];
        assert(('a' <= ch && ch <= 'z') || ('A' <= ch && ch <= 'Z') || ('0' <= ch && ch <= '9') || ch == '_' || ch == '&'
            || ch == '|');
    }
    lemma_tokens_single(t);
    assert(sw.drop_first() =~= t);
    assert(tokens(sw) == tokens(t));
    assert(t != "?"@) by {
        assert(t[0] != '?');
    }
    assert(seq![t].drop_first() =~= Seq::<Seq<char>>::empty());
    assert(seq![t][0] == t);
    assert(branch_tokens(Seq::<Seq<char>>::empty()) == 0);
    assert(branch_tokens(seq![t]) == if is_branch_word(t) { 1nat } else { 0nat });
    assert forall|i: int| 0 <= i < sw.len() implies #[trigger] sw[i] != '?' by {
        if i > 0 {
            assert(sw[i] == t[i - 1]);
        }
    }
    lemma_match_count_none(sw, "??"@);
    lemma_match_count_none(sw, "?."@);
}

/// A symbol that carries the parser's value has that complexity, whatever
/// its source text.
pub proof fn law_parser_value_wins(symbol: Symbol, src: Seq<char>, c: u64)
    requires
        symbol.complexity == Some(c),
    ensures
        complexity_of(symbol, src) == c,
{
}

/// One step of the two-character match count.
proof fn lemma_match_count_step(s: Seq<char>, p: Seq<char>)
    requires
        p.len() == 2,
        s.len() >= 2,
    ensures
        match_count(s, p) == if s[0] == p[0] && s[1] == p[1] {
            1 + match_count(s.skip(2), p)
        } else {
            match_count(s.drop_first(), p)
        },
{
    if s[0] == p[0] && s[1] == p[1] {
        assert(s.take(2) =~= p);
    } else if s.take(2) == p {
        assert(s.take(2)[0] == s[0]);
        assert(s.take(2)[1] == s[1]);
    }
}

/// The two-character match counts of a text that ends within five
/// characters, each unfolded to its value.
proof fn lemma_match_count_short(s: Seq<char>, p: Seq<char>)
    requires
        p.len() == 2,
        s.len() <= 5,
    ensures
        s.len() < 2 ==> match_count(s, p) == 0,
        s.len() >= 2 ==> match_count(s, p) == if s[0] == p[0] && s[1] == p[1] {
            1 + match_count(s.skip(2), p)
        } else {
            match_count(s.drop_first(), p)
        },
{
    if s.len() >= 2 {
        lemma_match_count_step(s, p);
    }
}

/// Where a symbol carries no parser value, a lone `?` (a ternary), a `??`
/// and a `?.` appended after a space each add one to its complexity, while
/// a `?` inside a longer word adds nothing.
pub proof fn law_question_marks(symbol: Symbol, src: Seq<char>)
    requires
        symbol.complexity is None,
    ensures
        complexity_of(symbol, src + " ?"@) == complexity_of(symbol, src) + 1,
        complexity_of(symbol, src + " a??b"@) == complexity_of(symbol, src) + 1,
        complexity_of(symbol, src + " a?.b"@) == complexity_of(symbol, src) + 1,
        complexity_of(symbol, src + " a?b"@) == complexity_of(symbol, src),
{
    reveal_strlit(" ?");
    reveal_strlit(" a??b");
    reveal_strlit(" a?.b");
    reveal_strlit(" a?b");
    reveal_strlit("?");
    reveal_strlit("??");
    reveal_strlit("?.");
    let qq = "??"@;
    let qd = "?."@;
    assert(is_separator(' '));
    assert(!is_separator('?') && !is_separator('a') && !is_separator('b') && !is_separator('.'));
    assert(Seq::<Seq<char>>::empty().len() == 0);
    assert(branch_tokens(Seq::<Seq<char>>::empty()) == 0);
    // " ?"
    let s1 = " ?"@;
    let w1 = s1.drop_first();
    lemma_append_spaced(src, s1);
    lemma_tokens_single(w1);
    assert(seq![w1].drop_first() =~= Seq::<Seq<char>>::empty());
    assert(seq![w1][0] == w1);
    assert(w1 =~= "?"@);
    lemma_match_count_short(s1, qq);
    lemma_match_count_short(s1, qd);
    lemma_match_count_short(w1, qq);
    lemma_match_count_short(w1, qd);
    // " a??b"
    let s2 = " a??b"@;
    let w2 = s2.drop_first();
    lemma_append_spaced(src, s2);
    lemma_tokens_single(w2);
    assert(seq![w2].drop_first() =~= Seq::<Seq<char>>::empty());
    assert(seq![w2][0] == w2);
    assert(w2 != "?"@ && !is_branch_word(w2)) by {
        reveal_strlit("if");
        reveal_strlit("elif");
        reveal_strlit("elsif");
        reveal_strlit("elseif");
        reveal_strlit("for");
        reveal_strlit("while");
        reveal_strlit("loop");
        reveal_strlit("match");
        reveal_strlit("case");
        reveal_strlit("switch");
        reveal_strlit("catch");
        reveal_strlit("except");
        reveal_strlit("rescue");
        reveal_strlit("finally");
        reveal_strlit("&&");
        reveal_strlit("||");
        assert(w2.len() == 4);
        assert(w2[0] == 'a');
    }
    lemma_match_count_short(s2, qq);
    lemma_match_count_short(w2, qq);
    lemma_match_count_short(w2.drop_first(), qq);
    lemma_match_count_short(w2.drop_first().skip(2), qq);
    lemma_match_count_short(s2, qd);
    lemma_match_count_short(w2, qd);
    lemma_match_count_short(w2.drop_first(), qd);
    lemma_match_count_short(w2.drop_first().drop_first(), qd);
    lemma_match_count_short(w2.drop_first().drop_first().drop_first(), qd);
    // " a?.b"
    let s3 = " a?.b"@;
    let w3 = s3.drop_first();
    lemma_append_spaced(src, s3);
    lemma_tokens_single(w3);
    assert(seq![w3].drop_first() =~= Seq::<Seq<char>>::empty());
    assert(seq![w3][0] == w3);
    assert(w3 != "?"@ && !is_branch_word(w3)) by {
        reveal_strlit("if");
        reveal_strlit("elif");
        reveal_strlit("elsif");
        reveal_strlit("elseif");
        reveal_strlit("for");
        reveal_strlit("while");
        reveal_strlit("loop");
        reveal_strlit("match");
        reveal_strlit("case");
        reveal_strlit("switch");
        reveal_strlit("catch");
        reveal_strlit("except");
        reveal_strlit("rescue");
        reveal_strlit("finally");
        reveal_strlit("&&");
        reveal_strlit("||");
        assert(w3.len() == 4);
        assert(w3[0] == 'a');
    }
    lemma_match_count_short(s3, qq);
    lemma_match_count_short(w3, qq);
    lemma_match_count_short(w3.drop_first(), qq);
    lemma_match_count_short(w3.drop_first().drop_first(), qq);
    lemma_match_count_short(w3.drop_first().drop_first().drop_first(), qq);
    lemma_match_count_short(s3, qd);
    lemma_match_count_short(w3, qd);
    lemma_match_count_short(w3.drop_first(), qd);
    lemma_match_count_short(w3.drop_first().skip(2), qd);
    // " a?b"
    let s4 = " a?b"@;
    let w4 = s4.drop_first();
    lemma_append_spaced(src, s4);
    lemma_tokens_single(w4);
    assert(seq![w4].drop_first() =~= Seq::<Seq<char>>::empty());
    assert(seq![w4][0] == w4);
    assert(w4 != "?"@ && !is_branch_word(w4)) by {
        reveal_strlit("if");
        reveal_strlit("elif");
        reveal_strlit("elsif");
        reveal_strlit("elseif");
        reveal_strlit("for");
        reveal_strlit("while");
        reveal_strlit("loop");
        reveal_strlit("match");
        reveal_strlit("case");
        reveal_strlit("switch");
        reveal_strlit("catch");
        reveal_strlit("except");
        reveal_strlit("rescue");
        reveal_strlit("finally");
        reveal_strlit("&&");
        reveal_strlit("||");
        assert(w4.len() == 3);
        assert(w4[0] == 'a');
    }
    lemma_match_count_short(s4, qq);
    lemma_match_count_short(w4, qq);
    lemma_match_count_short(w4.drop_first(), qq);
    lemma_match_count_short(w4.drop_first().drop_first(), qq);
    lemma_match_count_short(s4, qd);
    lemma_match_count_short(w4, qd);
    lemma_match_count_short(w4.drop_first(), qd);
    lemma_match_count_short(w4.drop_first().drop_first(), qd);
}

/// The largest text a `str` can hold: Rust never allocates more than
/// `isize::MAX` bytes, and every character takes at least one.
pub open spec fn max_text_len() -> int {
    isize::MAX as int
}

proof fn lemma_match_count_bound(s: Seq<char>, p: Seq<char>)
    requires
        p.len() >= 1,
    ensures
        match_count(s, p) * p.len() <= s.len(),
        match_count(s, p) <= s.len(),
    decreases s.len(),
{
    if s.len() < p.len() {
        assert(match_count(s, p) == 0);
        assert(match_count(s, p) * p.len() == 0) by (nonlinear_arith)
            requires
                match_count(s, p) == 0,
        ;
    } else if s.take(p.len() as int) == p {
        let rest = s.skip(p.len() as int);
        lemma_match_count_bound(rest, p);
        let m1 = match_count(rest, p);
        let m = match_count(s, p);
        let l = p.len();
        assert(m == 1 + m1);
        assert(rest.len() == s.len() - l);
        assert(m * l == l + m1 * l) by (nonlinear_arith)
            requires
                m == 1 + m1,
        ;
        assert(m <= m * l) by (nonlinear_arith)
            requires
                l >= 1,
        ;
    } else {
        lemma_match_count_bound(s.drop_first(), p);
        let m = match_count(s, p);
        let m1 = match_count(s.drop_first(), p);
        assert(m == m1);
        let l = p.len();
        assert(m * l == m1 * l) by (nonlinear_arith)
            requires
                m == m1,
        ;
    }
}

/// Counts the non-overlapping occurrences of `p` in `s` from the left.
fn count_matches(s: &[char], p: &[char]) -> (r: u64)
    requires
        p.len() >= 1,
        s.len() <= max_text_len(),
    ensures
        r == match_count(s@, p@),
{
    let mut c: u64 = 0;
    let mut i: usize = 0;
    proof {
        lemma_match_count_bound(s@, p@);
        assert(s@.skip(0) =~= s@);
    }
    while i < s.len() && p.len() <= s.len() - i
        invariant
            i <= s.len(),
            p.len() >= 1,
            s.len() <= max_text_len(),
            match_count(s@, p@) == c + match_count(s@.skip(i as int), p@),
            match_count(s@, p@) <= s.len(),
        decreases s.len() - i,
    {
        let ghost rest = s@.skip(i as int);
        proof {
            lemma_match_count_bound(s@, p@);
            assert(rest.take(p.len() as int) =~= s@.subrange(i as int, i + p.len()));
        }
        if occurs_at_exec(s, p, i) {
            proof {
                assert(rest.skip(p.len() as int) =~= s@.skip(i + p.len()));
            }
            c = c + 1;
            i = i + p.len();
        } else {
            proof {
                assert(rest.drop_first() =~= s@.skip(i + 1));
            }
            i = i + 1;
        }
    }
    c
}

/// Whether a token is a branch word.
fn branch_word(t: &[char]) -> (b: bool)
    ensures
        b == is_branch_word(t@),
{
    chars_eq(t, chars_of("if").as_slice()) || chars_eq(t, chars_of("elif").as_slice()) || chars_eq(
        t,
        chars_of("elsif").as_slice(),
    ) || chars_eq(t, chars_of("elseif").as_slice()) || chars_eq(t, chars_of("for").as_slice()) || chars_eq(
        t,
        chars_of("while").as_slice(),
    ) || chars_eq(t, chars_of("loop").as_slice()) || chars_eq(t, chars_of("match").as_slice()) || chars_eq(
        t,
        chars_of("case").as_slice(),
    ) || chars_eq(t, chars_of("switch").as_slice()) || chars_eq(t, chars_of("catch").as_slice()) || chars_eq(
        t,
        chars_of("except").as_slice(),
    ) || chars_eq(t, chars_of("rescue").as_slice()) || chars_eq(t, chars_of("finally").as_slice()) || chars_eq(
        t,
        chars_of("&&").as_slice(),
    ) || chars_eq(t, chars_of("||").as_slice())
}

/// The number of branch-word and `?` tokens of `s`.
fn count_branch_tokens(s: &[char]) -> (r: u64)
    requires
        s.len() <= max_text_len(),
    ensures
        r == branch_tokens(tokens(s@)),
        r <= s.len(),
{
    let question = chars_of("?");
    let mut c: u64 = 0;
    let mut i: usize = 0;
    proof {
        assert(s@.skip(0) =~= s@);
    }
    while i < s.len()
        invariant
            i <= s.len(),
            s.len() <= max_text_len(),
            question@ == "?"@,
            c <= i,
            branch_tokens(tokens(s@)) == c + branch_tokens(tokens(s@.skip(i as int))),
        decreases s.len() - i,
    {
        let ghost rest = s@.skip(i as int);
        if separator(s[i]) {
            proof {
                assert(rest.drop_first() =~= s@.skip(i + 1));
            }
            i = i + 1;
        } else {
            let mut j = i + 1;
            while j < s.len() && !separator(s[j])
                invariant
                    i < j <= s.len(),
                    forall|m: int| i <= m < j ==> !is_separator(#[trigger] s@[m]),
                decreases s.len() - j,
            {
                j = j + 1;
            }
            let token = slice_to_vec(s, i, j);
            proof {
                let k = j - i;
                assert forall|m: int| 0 <= m < k implies !is_separator(#[trigger] rest[m]) by {
                    assert(rest[m] == s@[i + m]);
                }
                if j < s.len() {
                    assert(rest[k] == s@[j as int]);
                }
                lemma_run_len_exact(rest, k);
                assert(rest.take(k) =~= token@);
                assert(rest.skip(k) =~= s@.skip(j as int));
                let ts = tokens(rest);
                assert(ts == seq![token@] + tokens(s@.skip(j as int)));
                assert(ts.drop_first() =~= tokens(s@.skip(j as int)));
            }
            if branch_word(token.as_slice()) || chars_eq(token.as_slice(), question.as_slice()) {
                c = c + 1;
            }
            i = j;
        }
    }
    proof {
        assert(s@.skip(i as int) =~= Seq::<char>::empty());
    }
    c
}

/// Computes the cyclomatic complexity of a symbol: the parser's value when
/// the symbol carries one; otherwise one for the entry, plus one per token
/// of `source` that is a branch word (`if`, `elif`, `elsif`, `elseif`,
/// `for`, `while`, `loop`, `match`, `case`, `switch`, `catch`, `except`,
/// `rescue`, `finally`, `&&`, `||`) or a lone `?`, plus one per `??` and per
/// `?.` in the text. Tokens are the maximal runs of characters other than
/// white space and `( ) { } ; ,`.
pub fn compute_complexity(symbol: &Symbol, source: &str) -> (r: u64)
    requires
        source@.len() <= max_text_len(),
    ensures
        r == complexity_of(*symbol, source@),
{
    if let Some(c) = symbol.complexity {
        return c;
    }
    let s = chars_of(source);
    let branches = count_branch_tokens(s.as_slice());
    let coalesce = chars_of("??");
    let chain = chars_of("?.");
    proof {
        reveal_strlit("??");
        reveal_strlit("?.");
    }
    let nc = count_matches(s.as_slice(), coalesce.as_slice());
    let oc = count_matches(s.as_slice(), chain.as_slice());
    proof {
        lemma_match_count_bound(s@, coalesce@);
        lemma_match_count_bound(s@, chain@);
    }
    1 + branches + nc + oc
}

/// Joins `ls[from..to]` with `\n`.
fn join_range(ls: &Vec<Vec<char>>, from: usize, to: usize) -> (r: Vec<char>)
    requires
        from <= to <= ls.len(),
    ensures
        r@ == join_lines(vecs_view(ls@).subrange(from as int, to as int)),
{
    let mut r: Vec<char> = Vec::new();
    let mut k = from;
    while k < to
        invariant
            from <= k <= to <= ls.len(),
            r@ == join_lines(vecs_view(ls@).subrange(from as int, k as int)),
        decreases to - k,
    {
        let ghost sub = vecs_view(ls@).subrange(from as int, k + 1);
        proof {
            assert(sub.drop_last() =~= vecs_view(ls@).subrange(from as int, k as int));
            assert(sub.last() == ls@[k as int]@);
        }
        if k > from {
            r.push('\n');
        }
        let line = &ls[k];
        let mut m: usize = 0;
        let ghost base = r@;
        while m < line.len()
            invariant
                m <= line.len(),
                r@ == base + line@.take(m as int),
            decreases line.len() - m,
        {
            r.push(line[m]);
            proof {
                assert(r@ =~= base + line@.take(m + 1));
            }
            m = m + 1;
        }
        proof {
            assert(line@.take(m as int) =~= line@);
            if k == from {
                assert(sub.len() == 1);
                assert(r@ =~= sub[0]);
            }
        }
        k = k + 1;
    }
    r
}

/// The part of a file's text that belongs to a symbol: its lines
/// `line..=end_line`, unless the range is invalid, the text has at most
/// one and a half times `end_line` lines or at most 20 lines (it is then
/// taken to be the symbol's own text), or the range covers more than four
/// fifths of the lines.
pub open spec fn symbol_excerpt(symbol: Symbol, src: Seq<char>) -> Option<Seq<char>> {
    let loc = symbol.location;
    let ls = lines_of(src);
    let total = ls.len() as int;
    if loc.line == 0 || loc.end_line == 0 || loc.line > loc.end_line {
        None
    } else if 2 * total <= 3 * loc.end_line || total <= 20 {
        None
    } else if 5 * (loc.end_line - loc.line + 1) > 4 * total {
        None
    } else {
        Some(join_lines(ls.subrange(loc.line - 1, loc.end_line as int)))
    }
}

/// Extracts a symbol's own lines from its file's text (see `symbol_excerpt`).
pub fn extract_symbol_source(symbol: &Symbol, file_source: &str) -> (r: Option<String>)
    ensures
        r matches Some(x) ==> symbol_excerpt(*symbol, file_source@) == Some(x@),
        r is None ==> symbol_excerpt(*symbol, file_source@) is None,
{
    let line = symbol.location.line;
    let end_line = symbol.location.end_line;
    if line == 0 || end_line == 0 || line > end_line {
        return None;
    }
    let s = chars_of(file_source);
    let lines = split_lines(s.as_slice());
    proof {
        assert(vecs_view(lines@).len() == lines@.len());
    }
    let total = lines.len() as u64;
    if (total as u128) * 2 <= (end_line as u128) * 3 || total <= 20 {
        return None;
    }
    let span = end_line - line + 1;
    if (span as u128) * 5 > (total as u128) * 4 {
        return None;
    }
    let start = (line - 1) as usize;
    let end = end_line as usize;
    let joined = join_range(&lines, start, end);
    Some(string_of(joined.as_slice()))
}

/// The code-quality metrics of one symbol.
#[derive(Debug, Clone, PartialEq, Eq)]
pub struct CodeMetrics {
    /// Symbol id.
    pub symbol_id: String,
    /// Symbol name.
    pub name: String,
    /// Cyclomatic complexity.
    pub cyclomatic_complexity: u64,
    /// Number of call edges entering the symbol.
    pub fan_in: u64,
    /// Number of call edges leaving the symbol.
    pub fan_out: u64,
    /// Number of ancestor types.
    pub depth_of_inheritance: u64,
}

/// Computes code metrics; holds no state.
pub struct MetricCalculator;

/// The complexity `compute_all` reports: the parser's value, else the
/// lexical complexity of the symbol's excerpt of its cached file (or of the
/// whole file when no excerpt applies), else 1 when no text is cached.
pub open spec fn reported_complexity(symbol: Symbol, cache: Option<Map<Seq<char>, String>>) -> int {
    match symbol.complexity {
        Some(c) => c as int,
        None => match cache {
            Some(m) => if m.contains_key(symbol.location.file_path@) {
                let src = m[symbol.location.file_path@]@;
                match symbol_excerpt(symbol, src) {
                    Some(x) => lexical_complexity(x),
                    None => lexical_complexity(src),
                }
            } else {
                1
            },
            None => 1,
        },
    }
}

/// Every cached text fits in memory.
pub open spec fn cache_fits(cache: Option<Map<Seq<char>, String>>) -> bool {
    match cache {
        Some(m) => forall|k: Seq<char>| #[trigger] m.contains_key(k) ==> m[k]@.len() <= max_text_len(),
        None => true,
    }
}

/// A cached text fits in memory.
proof fn lemma_cache_fits(m: Map<Seq<char>, String>, k: Seq<char>)
    requires
        cache_fits(Some(m)),
        m.contains_key(k),
    ensures
        m[k]@.len() <= max_text_len(),
{
    let c = Some(m);
    assert(cache_fits(c));
    assert(c matches Some(mm) && mm == m);
    assert(c->0 == m);
}

/// An excerpt is no longer than its text (its separators stand for
/// consumed line feeds).
proof fn lemma_excerpt_bound(symbol: Symbol, src: Seq<char>)
    ensures
        symbol_excerpt(symbol, src) matches Some(x) ==> x.len() <= src.len(),
{
    if let Some(x) = symbol_excerpt(symbol, src) {
        let ls = lines_of(src);
        let loc = symbol.location;
        lemma_lines_len(src);
        lemma_join_len(ls.subrange(loc.line - 1, loc.end_line as int));
        lemma_sum_sub(ls, loc.line - 1, loc.end_line as int);
    }
}

/// The total length of some lines.
pub open spec fn total_len(ls: Seq<Seq<char>>) -> nat
    decreases ls.len(),
{
    if ls.len() == 0 {
        0
    } else {
        total_len(ls.drop_last()) + ls.last().len()
    }
}

/// Joining adds one separator between lines.
proof fn lemma_join_len(ls: Seq<Seq<char>>)
    ensures
        ls.len() >= 1 ==> join_lines(ls).len() + 1 == total_len(ls) + ls.len(),
    decreases ls.len(),
{
    if ls.len() > 1 {
        lemma_join_len(ls.drop_last());
        assert(join_lines(ls) == join_lines(ls.drop_last()) + seq!['\n'] + ls.last());
        assert(total_len(ls) == total_len(ls.drop_last()) + ls.last().len());
    } else if ls.len() == 1 {
        assert(ls.drop_last() =~= Seq::<Seq<char>>::empty());
        assert(total_len(ls.drop_last()) == 0);
        assert(total_len(ls) == total_len(ls.drop_last()) + ls.last().len());
        assert(join_lines(ls) == ls[0]);
    }
}

/// The lines hold no more characters than the text, and there are no more
/// lines than characters.
proof fn lemma_lines_len(s: Seq<char>)
    ensures
        total_len(lines_of(s)) + lines_of(s).len() <= s.len() + 1,
        total_len(lines_of(s)) <= s.len(),
        lines_of(s).len() <= s.len(),
    decreases s.len(),
{
    if s.len() > 0 {
        match first_newline(s) {
            Some(k) => {
                if 0 <= k < s.len() {
                    lemma_lines_len(s.skip(k + 1));
                    let head = strip_cr(s.take(k));
                    let tail = lines_of(s.skip(k + 1));
                    lemma_total_len_prepend(head, tail);
                }
            },
            None => {
                assert(total_len(seq![s]) == total_len(Seq::<Seq<char>>::empty()) + s.len()) by {
                    assert(seq![s].drop_last() =~= Seq::<Seq<char>>::empty());
                }
            },
        }
    }
}

/// The total length of a line followed by more lines.
proof fn lemma_total_len_prepend(x: Seq<char>, ls: Seq<Seq<char>>)
    ensures
        total_len(seq![x] + ls) == x.len() + total_len(ls),
    decreases ls.len(),
{
    let whole = seq![x] + ls;
    if ls.len() == 0 {
        assert(whole.drop_last() =~= Seq::<Seq<char>>::empty());
        assert(whole.last() == x);
        assert(total_len(whole.drop_last()) == 0);
        assert(total_len(whole) == total_len(whole.drop_last()) + whole.last().len());
    } else {
        lemma_total_len_prepend(x, ls.drop_last());
        assert(whole.drop_last() =~= seq![x] + ls.drop_last());
        assert(whole.last() == ls.last());
        assert(total_len(whole) == total_len(whole.drop_last()) + whole.last().len());
        assert(total_len(ls) == total_len(ls.drop_last()) + ls.last().len());
    }
}

/// A range of lines holds no more than all of them.
proof fn lemma_sum_sub(ls: Seq<Seq<char>>, a: int, b: int)
    requires
        0 <= a <= b <= ls.len(),
    ensures
        total_len(ls.subrange(a, b)) <= total_len(ls),
        ls.subrange(a, b).len() <= ls.len(),
    decreases ls.len(),
{
    if b < ls.len() {
        lemma_sum_sub(ls.drop_last(), a, b);
        assert(ls.drop_last().subrange(a, b) =~= ls.subrange(a, b));
    } else if a < b {
        lemma_sum_sub(ls.drop_last(), a, b - 1);
        assert(ls.subrange(a, b).drop_last() =~= ls.drop_last().subrange(a, b - 1));
    } else {
        assert(ls.subrange(a, b) =~= Seq::<Seq<char>>::empty());
    }
}

/// The map a list of (path, text) pairs gives: later pairs replace earlier
/// ones of the same path.
pub open spec fn pairs_map(pairs: Seq<(String, String)>) -> Map<Seq<char>, String>
    decreases pairs.len(),
{
    if pairs.len() == 0 {
        Map::empty()
    } else {
        pairs_map(pairs.drop_last()).insert(pairs.last().0@, pairs.last().1)
    }
}

/// A source cache for `compute_all` from (path, text) pairs (see
/// `pairs_map`).
pub fn source_cache_from(pairs: Vec<(String, String)>) -> (m: StringHashMap<String>)
    ensures
        m@ == pairs_map(pairs@),
{
    let mut m: StringHashMap<String> = StringHashMap::new();
    let ghost ps = pairs@;
    let mut pairs = pairs;
    let mut k: usize = 0;
    proof {
        assert(ps.take(0) =~= Seq::<(String, String)>::empty());
        assert(m@ =~= pairs_map(ps.take(0)));
        assert(pairs@ =~= ps.skip(0));
        assert(ps.len() == pairs.len());
    }
    while pairs.len() > 0
        invariant
            k + pairs.len() == ps.len(),
            k <= ps.len(),
            ps.len() <= usize::MAX,
            pairs@ == ps.skip(k as int),
            m@ == pairs_map(ps.take(k as int)),
        decreases pairs.len(),
    {
        let ghost before = pairs@;
        let (path, text) = pairs.remove(0);
        proof {
            assert(before[0] == ps[k as int]);
            assert(pairs@ =~= ps.skip(k + 1));
            assert(ps.take(k + 1).drop_last() =~= ps.take(k as int));
            assert(ps.take(k + 1).last() == ps[k as int]);
        }
        m.insert(path, text);
        k = k + 1;
    }
    proof {
        assert(ps.take(k as int) =~= ps);
    }
    m
}

/// The cache's texts through their views.
pub open spec fn cache_view(cache: Option<&StringHashMap<String>>) -> Option<Map<Seq<char>, String>> {
    match cache {
        Some(m) => Some(m@),
        None => None,
    }
}

impl MetricCalculator {
    /// The lexical complexity of a symbol's text (see `compute_complexity`).
    pub fn compute_complexity(symbol: &Symbol, source: &str) -> (r: u64)
        requires
            source@.len() <= max_text_len(),
        ensures
            r == complexity_of(*symbol, source@),
    {
        compute_complexity(symbol, source)
    }

    /// A symbol's own lines of its file's text (see `symbol_excerpt`).
    pub fn extract_symbol_source(symbol: &Symbol, file_source: &str) -> (r: Option<String>)
        ensures
            r matches Some(x) ==> symbol_excerpt(*symbol, file_source@) == Some(x@),
            r is None ==> symbol_excerpt(*symbol, file_source@) is None,
    {
        extract_symbol_source(symbol, file_source)
    }

    /// The metrics of each symbol, in order: its complexity (see
    /// `reported_complexity`), its fan-in and fan-out in the call graph
    /// (found by id, else by name) and its number of ancestor types (found
    /// by name).
    pub fn compute_all(
        symbols: &[Symbol],
        call_graph: &CallGraph,
        type_hierarchy: &TypeHierarchy,
        source_cache: Option<&StringHashMap<String>>,
    ) -> (r: Vec<CodeMetrics>)
        requires
            call_graph.wf(),
            type_hierarchy.wf(),
            cache_fits(cache_view(source_cache)),
        ensures
            r.len() == symbols.len(),
            forall|i: int| 0 <= i < r.len() ==> {
                let sym = #[trigger] symbols@[i];
                &&& r@[i].symbol_id@ == sym.id@
                &&& r@[i].name@ == sym.name@
                &&& r@[i].cyclomatic_complexity == reported_complexity(sym, cache_view(source_cache))
                &&& r@[i].fan_in == call_graph.degree_of(sym.id@).0
                &&& r@[i].fan_out == call_graph.degree_of(sym.id@).1
                &&& r@[i].depth_of_inheritance == match type_hierarchy.find_index(sym.name@) {
                    Some(s) => type_hierarchy.reach_nodes(s, any_edge(), false).len() as int,
                    None => 0,
                }
            },
    {
        let mut r: Vec<CodeMetrics> = Vec::new();
        let mut i: usize = 0;
        while i < symbols.len()
            invariant
                i <= symbols.len(),
                call_graph.wf(),
                type_hierarchy.wf(),
                cache_fits(cache_view(source_cache)),
                r.len() == i,
                forall|k: int| 0 <= k < i ==> {
                    let sym = #[trigger] symbols@[k];
                    &&& r@[k].symbol_id@ == sym.id@
                    &&& r@[k].name@ == sym.name@
                    &&& r@[k].cyclomatic_complexity == reported_complexity(sym, cache_view(source_cache))
                    &&& r@[k].fan_in == call_graph.degree_of(sym.id@).0
                    &&& r@[k].fan_out == call_graph.degree_of(sym.id@).1
                    &&& r@[k].depth_of_inheritance == match type_hierarchy.find_index(sym.name@) {
                        Some(s) => type_hierarchy.reach_nodes(s, any_edge(), false).len() as int,
                        None => 0,
                    }
                },
            decreases symbols.len() - i,
        {
            let symbol = &symbols[i];
            let complexity = match symbol.complexity {
                Some(c) => c,
                None => match source_cache {
                    Some(cache) => match cache.get(symbol.location.file_path.as_str()) {
                        Some(file_source) => {
                            let scoped = extract_symbol_source(symbol, file_source.as_str());
                            proof {
                                assert(cache@.contains_key(symbol.location.file_path@));
                                assert(cache_view(source_cache) == Some(cache@));
                                assert(*file_source == cache@[symbol.location.file_path@]);
                                lemma_cache_fits(cache@, symbol.location.file_path@);
                                lemma_excerpt_bound(*symbol, file_source@);
                            }
                            match scoped {
                                Some(x) => compute_complexity(symbol, x.as_str()),
                                None => compute_complexity(symbol, file_source.as_str()),
                            }
                        },
                        None => 1,
                    },
                    None => 1,
                },
            };
            let (fan_in, fan_out) = call_graph.degree(symbol.id.as_str());
            let ancestors = type_hierarchy.get_ancestors(symbol.name.as_str());
            proof {
                if let Some(s) = type_hierarchy.find_index(symbol.name@) {
                    type_hierarchy.lemma_reach_set_len(s, any_edge(), false, ancestors@);
                }
            }
            r.push(
                CodeMetrics {
                    symbol_id: symbol.id.clone(),
                    name: symbol.name.clone(),
                    cyclomatic_complexity: complexity,
                    fan_in,
                    fan_out,
                    depth_of_inheritance: ancestors.len() as u64,
                },
            );
            i = i + 1;
        }
        r
    }
}

/// A symbol judged unreachable from every entry point.
#[derive(Debug, Clone, PartialEq, Eq)]
pub struct DeadCodeEntry {
    /// `dead_` followed by the symbol name.
    pub symbol_id: String,
    /// Symbol name (or id) as listed.
    pub name: String,
    /// How likely the symbol is dead, in percent.
    pub confidence_percent: u8,
    /// Why it was judged dead.
    pub reason: String,
}

/// The ids of the callees of the node `key` designates, one per outgoing
/// edge; none when there is no such node.
pub open spec fn callee_ids(g: CallGraph, key: Seq<char>) -> Seq<Seq<char>> {
    match g.lookup(key) {
        Some(i) => incident_edges(g.edge_seq(), i, false).map_values(|e: int| g.node_seq()[g.edge_seq()[e].1].symbol_id@),
        None => Seq::empty(),
    }
}

/// `c` is a call chain from an entry point: it starts at an entry point and
/// each later element is a callee id of the one before.
pub open spec fn is_call_chain(g: CallGraph, entries: Seq<String>, c: Seq<Seq<char>>) -> bool {
    &&& c.len() >= 1
    &&& exists|e: int| 0 <= e < entries.len() && #[trigger] entries[e]@ == c[0]
    &&& forall|j: int| 0 <= j < c.len() - 1 ==> #[trigger] callee_ids(g, c[j]).contains(c[j + 1])
}

/// `x` is reachable from the entry points.
pub open spec fn reached(g: CallGraph, entries: Seq<String>, x: Seq<char>) -> bool {
    exists|c: Seq<Seq<char>>| #[trigger] is_call_chain(g, entries, c) && c.last() == x
}

/// The confidence (percent) and reason given for an unreachable name with
/// `fan_in` callers.
pub open spec fn dead_verdict(name: Seq<char>, fan_in: int) -> (u8, Seq<char>) {
    if has_prefix(name, "test_"@) || contains_seq(name, "_test"@) {
        (50u8, "未被入口点可达，但名称匹配测试模式"@)
    } else if has_prefix(name, "_"@) {
        (70u8, "未被入口点可达，名称前缀暗示内部函数"@)
    } else if fan_in == 0 {
        (100u8, "从任何入口点都不可达，且未被任何符号调用"@)
    } else {
        (80u8, "未被入口点可达，但被 "@ + decimal(fan_in as nat) + " 个符号调用（可能是间接/动态调用）"@)
    }
}

/// The dead-code report over the listed names, in order: each name not
/// reachable from the entry points, as (id, name, confidence, reason).
pub open spec fn dead_report(g: CallGraph, entries: Seq<String>, names: Seq<String>) -> Seq<(Seq<char>, Seq<char>, u8, Seq<char>)>
    decreases names.len(),
{
    if names.len() == 0 {
        Seq::empty()
    } else {
        let rest = dead_report(g, entries, names.drop_last());
        let s = names.last()@;
        if reached(g, entries, s) {
            rest
        } else {
            let v = dead_verdict(s, g.degree_of(s).0);
            rest.push(("dead_"@ + s, s, v.0, v.1))
        }
    }
}

/// `x` is the name of an entry of the report.
pub open spec fn reported(r: Seq<(Seq<char>, Seq<char>, u8, Seq<char>)>, x: Seq<char>) -> bool {
    exists|i: int| 0 <= i < r.len() && #[trigger] r[i].1 == x
}

/// Dead code is exactly what the entry points do not reach: the report
/// names only listed names that no call chain from an entry point reaches,
/// and it names every such listed name.
pub proof fn law_dead_code_unreached(g: CallGraph, entries: Seq<String>, names: Seq<String>)
    ensures
        forall|i: int|
            0 <= i < dead_report(g, entries, names).len() ==> !reached(g, entries, #[trigger] dead_report(g, entries, names)[i].1)
                && exists|k: int| 0 <= k < names.len() && names[k]@ == dead_report(g, entries, names)[i].1,
        forall|k: int|
            0 <= k < names.len() && !reached(g, entries, #[trigger] names[k]@) ==> reported(dead_report(g, entries, names), names[k]@),
    decreases names.len(),
{
    if names.len() > 0 {
        let d = names.drop_last();
        law_dead_code_unreached(g, entries, d);
        let rest = dead_report(g, entries, d);
        let r = dead_report(g, entries, names);
        let s = names.last()@;
        assert forall|i: int| 0 <= i < r.len() implies !reached(g, entries, #[trigger] r[i].1)
            && exists|k: int| 0 <= k < names.len() && names[k]@ == r[i].1 by {
            if i < rest.len() {
                assert(r[i] == rest[i]);
                let k = choose|k: int| 0 <= k < d.len() && d[k]@ == rest[i].1;
                assert(names[k] == d[k]);
            } else {
                assert(names[names.len() - 1]@ == s);
            }
        }
        assert forall|k: int| 0 <= k < names.len() && !reached(g, entries, #[trigger] names[k]@) implies reported(r, names[k]@) by {
            if k < d.len() {
                assert(names[k] == d[k]);
                assert(reported(rest, d[k]@));
                let i = choose|i: int| 0 <= i < rest.len() && #[trigger] rest[i].1 == d[k]@;
                assert(r[i] == rest[i]);
            } else {
                assert(r[r.len() - 1].1 == s);
            }
        }
    }
}

/// The view of a dead-code entry.
pub open spec fn dead_view(d: DeadCodeEntry) -> (Seq<char>, Seq<char>, u8, Seq<char>) {
    (d.symbol_id@, d.name@, d.confidence_percent, d.reason@)
}

impl MetricCalculator {
    /// The verdict for one unreachable name.
    fn verdict(name: &str, fan_in: u64) -> (r: (u8, String))
        ensures
            r.0 == dead_verdict(name@, fan_in as int).0,
            r.1@ == dead_verdict(name@, fan_in as int).1,
    {
        let s = chars_of(name);
        if starts_with_chars(s.as_slice(), chars_of("test_").as_slice()) || contains_chars(
            s.as_slice(),
            chars_of("_test").as_slice(),
        ) {
            (50, "未被入口点可达，但名称匹配测试模式".to_string())
        } else if starts_with_chars(s.as_slice(), chars_of("_").as_slice()) {
            (70, "未被入口点可达，名称前缀暗示内部函数".to_string())
        } else if fan_in == 0 {
            (100, "从任何入口点都不可达，且未被任何符号调用".to_string())
        } else {
            let mut reason = "未被入口点可达，但被 ".to_string();
            let count = decimal_string(fan_in);
            reason.append(count.as_str());
            reason.append(" 个符号调用（可能是间接/动态调用）");
            (80, reason)
        }
    }
}

/// Every element of a call chain lies in a set that holds the entry points
/// and the callees of its every member.
proof fn lemma_chain_seen(
    g: CallGraph,
    entries: Seq<String>,
    qv: Seq<Seq<char>>,
    seen: Map<Seq<char>, bool>,
    c: Seq<Seq<char>>,
    j: int,
)
    requires
        forall|x: Seq<char>| #[trigger] seen.contains_key(x) <==> exists|k: int| 0 <= k < qv.len() && qv[k] == x,
        forall|e: int| 0 <= e < entries.len() ==> seen.contains_key(#[trigger] entries[e]@),
        forall|k: int, y: Seq<char>| 0 <= k < qv.len() && #[trigger] callee_ids(g, qv[k]).contains(y) ==> seen.contains_key(y),
        is_call_chain(g, entries, c),
        0 <= j < c.len(),
    ensures
        seen.contains_key(c[j]),
    decreases j,
{
    if j == 0 {
        let e = choose|e: int| 0 <= e < entries.len() && #[trigger] entries[e]@ == c[0];
        assert(seen.contains_key(entries[e]@));
    } else {
        lemma_chain_seen(g, entries, qv, seen, c, j - 1);
        let k = choose|k: int| 0 <= k < qv.len() && qv[k] == c[j - 1];
        let i = j - 1;
        assert(callee_ids(g, c[i]).contains(c[i + 1]));
        assert(callee_ids(g, qv[k]).contains(c[j]));
    }
}

/// A node id set: the ids of the first `n` nodes.
pub open spec fn node_id_set(g: CallGraph) -> Set<Seq<char>> {
    g.node_seq().map_values(|nd: crate::graph::call_graph::SymbolNode| nd.symbol_id@).to_set()
}

impl MetricCalculator {
    /// Detects dead code: walks the call graph from the entry points along
    /// call edges (a name finds its node by id, else by name) and reports,
    /// in order, every listed name the walk does not reach (see
    /// `dead_report`).
    #[verifier::rlimit(40)]
    pub fn detect_dead_code(all_symbols: &[String], call_graph: &CallGraph, entry_points: &[String]) -> (r: Vec<DeadCodeEntry>)
        requires
            call_graph.wf(),
        ensures
            r@.map_values(|d: DeadCodeEntry| dead_view(d)) == dead_report(*call_graph, entry_points@, all_symbols@),
    {
        let ghost g = *call_graph;
        let ghost entries = entry_points@;
        let mut seen: StringHashMap<bool> = StringHashMap::new();
        let mut queue: Vec<String> = Vec::new();
        let mut i: usize = 0;
        while i < entry_points.len()
            invariant
                i <= entry_points.len(),
                entries == entry_points@,
                queue.len() == i,
                forall|k: int| 0 <= k < i ==> #[trigger] queue@[k]@ == entries[k]@,
                forall|x: Seq<char>| #[trigger] seen@.contains_key(x) <==> exists|k: int| 0 <= k < queue.len() && queue@[k]@ == x,
            decreases entry_points.len() - i,
        {
            let ghost q0 = queue@;
            let ghost s0 = seen@;
            seen.insert(entry_points[i].clone(), true);
            queue.push(entry_points[i].clone());
            proof {
                assert forall|x: Seq<char>| #[trigger] seen@.contains_key(x) <==> exists|k: int| 0 <= k < queue.len() && queue@[k]@ == x by {
                    if x == entries[i as int]@ {
                        assert(queue@[i as int]@ == x);
                    } else {
                        if s0.contains_key(x) {
                            let k = choose|k: int| 0 <= k < q0.len() && q0[k]@ == x;
                            assert(queue@[k]@ == x);
                        }
                        if exists|k: int| 0 <= k < queue.len() && queue@[k]@ == x {
                            let k = choose|k: int| 0 <= k < queue.len() && queue@[k]@ == x;
                            assert(q0[k]@ == x);
                        }
                    }
                }
            }
            i = i + 1;
        }
        let ghost m0 = queue.len() as int;
        let ghost ids = node_id_set(g);
        proof {
            let idseq = g.node_seq().map_values(|nd: crate::graph::call_graph::SymbolNode| nd.symbol_id@);
            idseq.lemma_cardinality_of_set();
            vstd::seq_lib::seq_to_set_is_finite(idseq);
            assert forall|k: int| 0 <= k < queue.len() implies reached(g, entries, #[trigger] queue@[k]@) by {
                let c = seq![queue@[k]@];
                assert(entries[k]@ == c[0]);
                assert(is_call_chain(g, entries, c));
            }
            assert forall|e: int| 0 <= e < entries.len() implies seen@.contains_key(#[trigger] entries[e]@) by {
                assert(queue@[e]@ == entries[e]@);
            }
        }
        let ghost mut marked: Set<Seq<char>> = Set::empty();
        let mut h: usize = 0;
        while h < queue.len()
            invariant
                call_graph.wf(),
                g == *call_graph,
                entries == entry_points@,
                ids == node_id_set(g),
                ids.finite(),
                ids.len() <= g.node_seq().len(),
                h <= queue.len(),
                m0 <= queue.len(),
                forall|x: Seq<char>| #[trigger] seen@.contains_key(x) <==> exists|k: int| 0 <= k < queue.len() && queue@[k]@ == x,
                forall|k: int| 0 <= k < queue.len() ==> reached(g, entries, #[trigger] queue@[k]@),
                forall|e: int| 0 <= e < entries.len() ==> seen@.contains_key(#[trigger] entries[e]@),
                forall|k: int, y: Seq<char>| 0 <= k < h && #[trigger] callee_ids(g, queue@[k]@).contains(y) ==> seen@.contains_key(y),
                marked.finite(),
                marked.len() + m0 == queue.len(),
                marked.subset_of(ids),
                forall|x: Seq<char>| #[trigger] marked.contains(x) ==> seen@.contains_key(x),
            decreases (g.node_seq().len() - marked.len()) + (queue.len() - h),
        {
            proof {
                vstd::set_lib::lemma_len_subset(marked, ids);
            }
            let cur = queue[h].clone();
            let callees = call_graph.get_callees(cur.as_str());
            let ghost cv = callees@.map_values(|x: String| x@);
            proof {
                assert(cv =~= callee_ids(g, cur@));
            }
            let mut j: usize = 0;
            while j < callees.len()
                invariant
                    call_graph.wf(),
                    g == *call_graph,
                    entries == entry_points@,
                    ids == node_id_set(g),
                    ids.finite(),
                    ids.len() <= g.node_seq().len(),
                    h < queue.len(),
                    cur@ == queue@[h as int]@,
                    m0 <= queue.len(),
                    j <= callees.len(),
                    cv == callees@.map_values(|x: String| x@),
                    cv == callee_ids(g, cur@),
                    forall|m: int| 0 <= m < j ==> seen@.contains_key(#[trigger] callees@[m]@),
                    forall|x: Seq<char>| #[trigger] seen@.contains_key(x) <==> exists|k: int| 0 <= k < queue.len() && queue@[k]@ == x,
                    forall|k: int| 0 <= k < queue.len() ==> reached(g, entries, #[trigger] queue@[k]@),
                    forall|e: int| 0 <= e < entries.len() ==> seen@.contains_key(#[trigger] entries[e]@),
                    forall|k: int, y: Seq<char>| 0 <= k < h && #[trigger] callee_ids(g, queue@[k]@).contains(y) ==> seen@.contains_key(y),
                    marked.finite(),
                    marked.len() + m0 == queue.len(),
                    marked.subset_of(ids),
                    forall|x: Seq<char>| #[trigger] marked.contains(x) ==> seen@.contains_key(x),
                decreases callees.len() - j,
            {
                let c = &callees[j];
                if !seen.contains_key(c.as_str()) {
                    let ghost q0 = queue@;
                    proof {
                        assert(cv[j as int] == c@);
                        // the new name is a reached node id
                        let chain = choose|ch: Seq<Seq<char>>| #[trigger] is_call_chain(g, entries, ch) && ch.last() == cur@;
                        let ext = chain.push(c@);
                        assert(callee_ids(g, cur@).contains(c@));
                        assert forall|jj: int| 0 <= jj < ext.len() - 1 implies #[trigger] callee_ids(g, ext[jj]).contains(ext[jj + 1]) by {
                            if jj < chain.len() - 1 {
                                assert(ext[jj] == chain[jj] && ext[jj + 1] == chain[jj + 1]);
                            } else {
                                assert(ext[jj] == cur@);
                            }
                        }
                        let e0 = choose|e: int| 0 <= e < entries.len() && #[trigger] entries[e]@ == chain[0];
                        assert(entries[e0]@ == ext[0]);
                        assert(is_call_chain(g, entries, ext));
                        assert(g.lookup(cur@) is Some);
                        let i0 = g.lookup(cur@)->0;
                        let inc = incident_edges(g.edge_seq(), i0, false);
                        let idseq = g.node_seq().map_values(|nd: crate::graph::call_graph::SymbolNode| nd.symbol_id@);
                        let e = inc[j as int];
                        crate::graph::topology::lemma_incident_desc(g.edge_seq(), i0, false, g.edge_seq().len() as int);
                        call_graph_lemma_edge_target(g, e);
                        let t = g.edge_seq()[e].1;
                        assert(idseq[t] == c@);
                        assert(ids.contains(c@));
                        assert(!marked.contains(c@));
                    }
                    seen.insert(c.clone(), true);
                    queue.push(c.clone());
                    proof {
                        marked = marked.insert(c@);
                        assert forall|x: Seq<char>| #[trigger] seen@.contains_key(x) <==> exists|k: int| 0 <= k < queue.len() && queue@[k]@ == x by {
                            if x == c@ {
                                assert(queue@[q0.len() as int]@ == x);
                            } else {
                                if exists|k: int| 0 <= k < q0.len() && q0[k]@ == x {
                                    let k = choose|k: int| 0 <= k < q0.len() && q0[k]@ == x;
                                    assert(queue@[k]@ == x);
                                }
                                if exists|k: int| 0 <= k < queue.len() && queue@[k]@ == x {
                                    let k = choose|k: int| 0 <= k < queue.len() && queue@[k]@ == x;
                                    assert(q0[k]@ == x);
                                }
                            }
                        }
                        assert forall|k: int| 0 <= k < queue.len() implies reached(g, entries, #[trigger] queue@[k]@) by {
                            if k < q0.len() {
                                assert(queue@[k] == q0[k]);
                            } else {
                                let chain = choose|ch: Seq<Seq<char>>| #[trigger] is_call_chain(g, entries, ch) && ch.last() == cur@;
                                let ext = chain.push(c@);
                                assert forall|jj: int| 0 <= jj < ext.len() - 1 implies #[trigger] callee_ids(g, ext[jj]).contains(ext[jj + 1]) by {
                                    if jj < chain.len() - 1 {
                                        assert(ext[jj] == chain[jj] && ext[jj + 1] == chain[jj + 1]);
                                    } else {
                                        assert(ext[jj] == cur@);
                                        assert(cv[j as int] == c@);
                                    }
                                }
                                let e0 = choose|e: int| 0 <= e < entries.len() && #[trigger] entries[e]@ == chain[0];
                                assert(entries[e0]@ == ext[0]);
                                assert(is_call_chain(g, entries, ext));
                            }
                        }
                        assert forall|k: int, y: Seq<char>| 0 <= k < h && #[trigger] callee_ids(g, queue@[k]@).contains(y) implies seen@.contains_key(y) by {
                            assert(queue@[k] == q0[k]);
                        }
                        vstd::set_lib::lemma_len_subset(marked, ids);
                    }
                }
                j = j + 1;
            }
            proof {
                assert forall|k: int, y: Seq<char>| 0 <= k < h + 1 && #[trigger] callee_ids(g, queue@[k]@).contains(y) implies seen@.contains_key(y) by {
                    if k == h {
                        let m = choose|m: int| 0 <= m < cv.len() && cv[m] == y;
                        assert(callees@[m]@ == y);
                    }
                }
            }
            h = h + 1;
        }
        let ghost qv = queue@.map_values(|x: String| x@);
        proof {
            assert forall|x: Seq<char>| reached(g, entries, x) <==> #[trigger] seen@.contains_key(x) by {
                if reached(g, entries, x) {
                    let c = choose|c: Seq<Seq<char>>| #[trigger] is_call_chain(g, entries, c) && c.last() == x;
                    assert forall|k: int, y: Seq<char>| 0 <= k < qv.len() && #[trigger] callee_ids(g, qv[k]).contains(y) implies seen@.contains_key(y) by {
                        assert(qv[k] == queue@[k]@);
                    }
                    assert forall|xx: Seq<char>| #[trigger] seen@.contains_key(xx) <==> exists|k: int| 0 <= k < qv.len() && qv[k] == xx by {
                        if seen@.contains_key(xx) {
                            let k = choose|k: int| 0 <= k < queue.len() && queue@[k]@ == xx;
                            assert(qv[k] == xx);
                        }
                    }
                    lemma_chain_seen(g, entries, qv, seen@, c, c.len() - 1);
                }
                if seen@.contains_key(x) {
                    let k = choose|k: int| 0 <= k < queue.len() && queue@[k]@ == x;
                    assert(reached(g, entries, queue@[k]@));
                }
            }
        }
        let mut r: Vec<DeadCodeEntry> = Vec::new();
        let mut i: usize = 0;
        while i < all_symbols.len()
            invariant
                i <= all_symbols.len(),
                call_graph.wf(),
                g == *call_graph,
                entries == entry_points@,
                forall|x: Seq<char>| reached(g, entries, x) <==> #[trigger] seen@.contains_key(x),
                r@.map_values(|d: DeadCodeEntry| dead_view(d)) == dead_report(g, entries, all_symbols@.take(i as int)),
            decreases all_symbols.len() - i,
        {
            proof {
                assert(all_symbols@.take(i + 1).drop_last() =~= all_symbols@.take(i as int));
            }
            let name = &all_symbols[i];
            if !seen.contains_key(name.as_str()) {
                let (fan_in, _fan_out) = call_graph.degree(name.as_str());
                let (confidence, reason) = Self::verdict(name.as_str(), fan_in);
                let mut id = "dead_".to_string();
                id.append(name.as_str());
                let ghost before = r@;
                r.push(DeadCodeEntry { symbol_id: id, name: name.clone(), confidence_percent: confidence, reason });
                proof {
                    assert(r@.map_values(|d: DeadCodeEntry| dead_view(d)) =~= before.map_values(|d: DeadCodeEntry| dead_view(d)).push(
                        dead_view(r@.last()),
                    ));
                }
            }
            i = i + 1;
        }
        proof {
            assert(all_symbols@.take(i as int) =~= all_symbols@);
        }
        r
    }
}

/// The target of an edge is a node.
proof fn call_graph_lemma_edge_target(g: CallGraph, e: int)
    requires
        g.wf(),
        0 <= e < g.edge_seq().len(),
    ensures
        0 <= g.edge_seq()[e].1 < g.node_seq().len(),
{
    g.lemma_edge_target(e);
}

} // verus!
