use vstd::prelude::*;

verus! {

// ASCII-whitespace tokenization, the line discipline of the trace format: a
// line is a sequence of tokens separated by runs of ASCII whitespace.

/// A character at which tokenization splits (ASCII whitespace).
pub open spec fn is_ws(c: char) -> bool {
    c == ' ' || c == '\t' || c == '\n' || c == '\x0C' || c == '\r'
}

/// Length of the leading run of non-whitespace characters of `s`.
pub open spec fn token_end(s: Seq<char>) -> nat
    decreases s.len(),
{
    if s.len() == 0 || is_ws(s[0]) {
        0
    } else {
        1 + token_end(s.skip(1))
    }
}

pub proof fn lemma_token_end(s: Seq<char>)
    ensures
        token_end(s) <= s.len(),
        forall|i: int| 0 <= i < token_end(s) ==> !is_ws(s[i]),
        token_end(s) < s.len() ==> is_ws(s[token_end(s) as int]),
    decreases s.len(),
{
    if s.len() == 0 || is_ws(s[0]) {
    } else {
        lemma_token_end(s.skip(1));
        assert forall|i: int| 0 <= i < token_end(s) implies !is_ws(s[i]) by {
            if i > 0 {
                assert(s.skip(1)[i - 1] == s[i]);
            }
        }
        if token_end(s) < s.len() {
            assert(s.skip(1)[token_end(s) as int - 1] == s[token_end(s) as int]);
        }
    }
}

/// The whitespace-delimited tokens of `s`, in order.
pub open spec fn tokens_of(s: Seq<char>) -> Seq<Seq<char>>
    decreases s.len(),
    via tokens_of_dec
{
    if s.len() == 0 {
        Seq::empty()
    } else if is_ws(s[0]) {
        tokens_of(s.skip(1))
    } else {
        seq![s.take(token_end(s) as int)] + tokens_of(s.skip(token_end(s) as int))
    }
}

#[via_fn]
proof fn tokens_of_dec(s: Seq<char>) {
    lemma_token_end(s);
}

/// Skipping one whitespace character leaves the token sequence unchanged.
pub proof fn lemma_tokens_skip_ws(s: Seq<char>, i: int)
    requires
        0 <= i < s.len(),
        is_ws(s[i]),
    ensures
        tokens_of(s.skip(i)) == tokens_of(s.skip(i + 1)),
{
    assert(s.skip(i).len() > 0);
    assert(s.skip(i)[0] == s[i]);
    assert(s.skip(i).skip(1) =~= s.skip(i + 1));
}

/// A maximal non-whitespace run starting at `start` is the head token of the
/// suffix that begins there.
pub proof fn lemma_tokens_head(s: Seq<char>, start: int, end: int)
    requires
        0 <= start <= end <= s.len(),
        start < end,
        forall|i: int| start <= i < end ==> !is_ws(s[i]),
        end < s.len() ==> is_ws(s[end]),
    ensures
        tokens_of(s.skip(start)) == seq![s.subrange(start, end)] + tokens_of(s.skip(end)),
{
    let suf = s.skip(start);

    lemma_token_end_run(s, start, end);
    assert(!is_ws(suf[0]));
    assert(suf.take(token_end(suf) as int) =~= s.subrange(start, end));
    assert(suf.skip(token_end(suf) as int) =~= s.skip(end));
}

proof fn lemma_token_end_run(s: Seq<char>, start: int, end: int)
    requires
        0 <= start <= end <= s.len(),
        forall|i: int| start <= i < end ==> !is_ws(s[i]),
        end < s.len() ==> is_ws(s[end]),
    ensures
        token_end(s.skip(start)) == end - start,
    decreases end - start,
{
    let suf = s.skip(start);
    if start == end {
        if end < s.len() {
            assert(is_ws(suf[0]));
        }
    } else {
        assert(!is_ws(suf[0]));
        lemma_token_end_run(s, start + 1, end);
        assert(suf.skip(1) =~= s.skip(start + 1));
    }
}

/// When the suffix of the token list at `k` decomposes as one token followed
/// by a rest, that token sits at index `k` of the full list.
pub proof fn lemma_token_list_head(toks: Seq<Seq<char>>, k: int, t: Seq<char>, rest: Seq<Seq<char>>)
    requires
        0 <= k <= toks.len(),
        toks.skip(k) == seq![t] + rest,
    ensures
        k < toks.len(),
        toks[k] == t,
        toks.skip(k + 1) == rest,
    decreases toks.len(),
{
    assert(toks.skip(k).len() == 1 + rest.len());
    assert(toks.skip(k)[0] == t);
    assert(toks[k] == toks.skip(k)[0]);
    assert(toks.skip(k + 1) =~= rest) by {
        assert forall|i: int| 0 <= i < rest.len() implies toks.skip(k + 1)[i] == rest[i] by {
            assert(toks.skip(k)[i + 1] == rest[i]);
            assert(toks.skip(k + 1)[i] == toks[k + 1 + i]);
            assert(toks.skip(k)[i + 1] == toks[k + 1 + i]);
        }
    }
}

/// A well-formed token: nonempty and free of whitespace.
pub open spec fn ws_free_token(t: Seq<char>) -> bool {
    t.len() > 0 && forall|j: int| 0 <= j < t.len() ==> !is_ws(#[trigger] t[j])
}

/// Every token that tokenization hands out is well-formed.
pub proof fn lemma_tokens_wellformed(s: Seq<char>)
    ensures
        forall|i: int| 0 <= i < tokens_of(s).len() ==> ws_free_token(#[trigger] tokens_of(s)[i]),
    decreases s.len(),
{
    lemma_token_end(s);
    if s.len() == 0 {
    } else if is_ws(s[0]) {
        lemma_tokens_wellformed(s.skip(1));
        assert(tokens_of(s) == tokens_of(s.skip(1)));
    } else {
        lemma_tokens_wellformed(s.skip(token_end(s) as int));
        let head = s.take(token_end(s) as int);
        assert(ws_free_token(head));
        assert forall|i: int|
            0 <= i < tokens_of(s).len() implies ws_free_token(#[trigger] tokens_of(s)[i]) by {
            if i == 0 {
                assert(tokens_of(s)[0] == head);
            } else {
                assert(tokens_of(s)[i] == tokens_of(s.skip(token_end(s) as int))[i - 1]);
            }
        }
    }
}

/// A single well-formed token tokenizes to itself.
pub proof fn lemma_tokens_of_single(t: Seq<char>)
    requires
        ws_free_token(t),
    ensures
        tokens_of(t) == seq![t],
{
    lemma_token_end(t);
    assert(!is_ws(t[0]));
    assert(token_end(t) == t.len());
    assert(t.take(token_end(t) as int) =~= t);
    assert(t.skip(token_end(t) as int) =~= Seq::<char>::empty());
    assert(tokens_of(t) == seq![t.take(token_end(t) as int)] + tokens_of(
        t.skip(token_end(t) as int),
    ));
    assert(tokens_of(Seq::<char>::empty()).len() == 0);
    assert(tokens_of(t) =~= seq![t]);
}

/// A well-formed token, a space, and a rest tokenize to the token followed
/// by the rest's tokens.
pub proof fn lemma_tokens_of_cons(t: Seq<char>, rest: Seq<char>)
    requires
        ws_free_token(t),
    ensures
        tokens_of(t + seq![' '] + rest) == seq![t] + tokens_of(rest),
{
    let s = t + seq![' '] + rest;
    assert(s.len() == t.len() + 1 + rest.len());
    assert(forall|i: int| 0 <= i < t.len() ==> s[i] == #[trigger] t[i]);
    assert(s[t.len() as int] == ' ');
    lemma_tokens_head(s, 0, t.len() as int);
    assert(s.skip(0) =~= s);
    assert(s.subrange(0, t.len() as int) =~= t);
    lemma_tokens_skip_ws(s, t.len() as int);
    assert(s.skip(t.len() as int + 1) =~= rest);
}

/// Whether `c` is ASCII whitespace, the executable twin of [`is_ws`].
pub fn is_ws_char(c: char) -> (r: bool)
    ensures
        r == is_ws(c),
{
    c == ' ' || c == '\t' || c == '\n' || c == '\x0C' || c == '\r'
}

/// A cursor that hands out the whitespace-delimited tokens of one line, in
/// order, one call at a time.
pub struct TokenCursor<'a> {
    line: &'a str,
    len: usize,
    pos: usize,
    consumed: Ghost<nat>,
}

impl<'a> TokenCursor<'a> {
    /// The line this cursor walks.
    pub closed spec fn line_view(self) -> Seq<char> {
        self.line@
    }

    /// How many tokens have been handed out so far.
    pub closed spec fn consumed(self) -> nat {
        self.consumed@
    }

    pub closed spec fn wf(self) -> bool {
        &&& self.len == self.line@.len()
        &&& self.pos <= self.len
        &&& self.consumed@ <= tokens_of(self.line@).len()
        &&& tokens_of(self.line@.skip(self.pos as int)) == tokens_of(self.line@).skip(
            self.consumed@ as int,
        )
    }

    /// A well-formed cursor never stands past the last token.
    pub proof fn lemma_wf_bound(self)
        requires
            self.wf(),
        ensures
            self.consumed() <= tokens_of(self.line_view()).len(),
    {
    }

    pub fn new(line: &'a str) -> (c: TokenCursor<'a>)
        ensures
            c.wf(),
            c.line_view() == line@,
            c.consumed() == 0,
    {
        let len: usize = line.unicode_len();
        proof {
            assert(line@.skip(0) =~= line@);
            assert(tokens_of(line@).skip(0) =~= tokens_of(line@));
        }
        TokenCursor { line, len, pos: 0, consumed: Ghost(0) }
    }

    /// The next token, or `None` once the line is exhausted.
    pub fn next(&mut self) -> (r: Option<&'a str>)
        requires
            old(self).wf(),
        ensures
            final(self).wf(),
            final(self).line_view() == old(self).line_view(),
            ({
                let toks = tokens_of(old(self).line_view());
                if old(self).consumed() < toks.len() {
                    &&& r matches Some(t) && t@ == toks[old(self).consumed() as int]
                    &&& final(self).consumed() == old(self).consumed() + 1
                } else {
                    &&& r is None
                    &&& final(self).consumed() == old(self).consumed()
                }
            }),
    {
        let ghost s = self.line@;
        let ghost toks = tokens_of(s);
        while self.pos < self.len && is_ws_char(self.line.get_char(self.pos))
            invariant
                self.len == self.line@.len(),
                self.pos <= self.len,
                self.line@ == s,
                self.consumed@ <= toks.len(),
                self.consumed@ == old(self).consumed@,
                tokens_of(s.skip(self.pos as int)) == toks.skip(self.consumed@ as int),
            decreases self.len - self.pos,
        {
            proof {
                lemma_tokens_skip_ws(s, self.pos as int);
            }
            self.pos = self.pos + 1;
        }
        if self.pos == self.len {
            proof {
                assert(s.skip(self.pos as int) =~= Seq::<char>::empty());

                assert(tokens_of(s.skip(self.pos as int)).len() == 0);
                assert(toks.skip(self.consumed@ as int).len() == 0);
                assert(self.consumed@ == toks.len());
            }
            return None;
        }
        let start: usize = self.pos;
        while self.pos < self.len && !is_ws_char(self.line.get_char(self.pos))
            invariant
                self.len == self.line@.len(),
                start <= self.pos <= self.len,
                self.line@ == s,
                forall|i: int| start <= i < self.pos ==> !is_ws(s[i]),
                !is_ws(s[start as int]),
                start < self.len,
                self.consumed@ <= toks.len(),
                self.consumed@ == old(self).consumed@,
                tokens_of(s.skip(start as int)) == toks.skip(self.consumed@ as int),
            decreases self.len - self.pos,
        {
            self.pos = self.pos + 1;
        }
        let t: &'a str = self.line.substring_char(start, self.pos);
        proof {
            lemma_tokens_head(s, start as int, self.pos as int);
            lemma_token_list_head(
                toks,
                self.consumed@ as int,
                s.subrange(start as int, self.pos as int),
                tokens_of(s.skip(self.pos as int)),
            );
            self.consumed@ = self.consumed@ + 1;
        }
        Some(t)
    }
}

} // verus!
