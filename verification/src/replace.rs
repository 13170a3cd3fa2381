use crate::vars::VarMap;
use vstd::prelude::*;
use vstd::slice::slice_index_get;
use vstd::slice::slice_subrange;

verus! {

// ---------------------------------------------------------------------------
// Tokenization model.
//
// A template decomposes, left to right, into segments: a placeholder starts
// at a run of `{`, its name runs up to the next `}`, and the following run of
// `}` is consumed with it; a literal segment is a maximal run of characters
// other than `{`. An opening `{` with no later `}` makes a placeholder whose
// name runs to the end of the string.
// ---------------------------------------------------------------------------

/// Length of the maximal prefix of `s` whose characters compare to `target`
/// as `eq` says: each equals `target` when `eq` is true, differs when false.
pub open spec fn run_len(s: Seq<char>, target: char, eq: bool) -> nat
    decreases s.len(),
{
    if s.len() == 0 {
        0
    } else if (s[0] == target) == eq {
        (1 + run_len(s.drop_first(), target, eq)) as nat
    } else {
        0
    }
}

pub proof fn lemma_run_len_le(s: Seq<char>, target: char, eq: bool)
    ensures
        run_len(s, target, eq) <= s.len(),
    decreases s.len(),
{
    if s.len() > 0 && (s[0] == target) == eq {
        lemma_run_len_le(s.drop_first(), target, eq);
    }
}

/// The run length is the unique `n` whose prefix matches and whose boundary,
/// if any, does not.
pub proof fn lemma_run_len_exact(s: Seq<char>, target: char, eq: bool, n: int)
    requires
        0 <= n <= s.len(),
        forall|j: int| 0 <= j < n ==> (s[j] == target) == eq,
        n < s.len() ==> (s[n] == target) != eq,
    ensures
        run_len(s, target, eq) == n,
    decreases s.len(),
{
    if n == 0 {
    } else {
        assert((s[0] == target) == eq);
        assert forall|j: int| 0 <= j < n - 1 implies (s.drop_first()[j] == target) == eq by {
            assert(s.drop_first()[j] == s[j + 1]);
        }
        lemma_run_len_exact(s.drop_first(), target, eq, n - 1);
    }
}

/// The token at the head of a nonempty template: its text and whether it is a
/// placeholder name.
pub open spec fn next_token_of(s: Seq<char>) -> (Seq<char>, bool)
    recommends
        s.len() > 0,
{
    if s[0] == '{' {
        let after_open = s.skip(run_len(s, '{', true) as int);
        (after_open.take(run_len(after_open, '}', false) as int), true)
    } else {
        (s.take(run_len(s, '{', false) as int), false)
    }
}

/// What remains of a nonempty template after its head token.
pub open spec fn rest_after(s: Seq<char>) -> Seq<char>
    recommends
        s.len() > 0,
{
    if s[0] == '{' {
        let after_open = s.skip(run_len(s, '{', true) as int);
        let after_name = after_open.skip(run_len(after_open, '}', false) as int);
        after_name.skip(run_len(after_name, '}', true) as int)
    } else {
        s.skip(run_len(s, '{', false) as int)
    }
}

/// Each token consumes at least one character.
pub proof fn lemma_rest_after_decreases(s: Seq<char>)
    requires
        s.len() > 0,
    ensures
        rest_after(s).len() < s.len(),
{
    if s[0] == '{' {
        assert(run_len(s, '{', true) >= 1);
        lemma_run_len_le(s, '{', true);
        let after_open = s.skip(run_len(s, '{', true) as int);
        lemma_run_len_le(after_open, '}', false);
        let after_name = after_open.skip(run_len(after_open, '}', false) as int);
        lemma_run_len_le(after_name, '}', true);
    } else {
        assert(run_len(s, '{', false) >= 1);
        lemma_run_len_le(s, '{', false);
    }
}

/// The full ordered decomposition of a template into (text, is_placeholder)
/// segments.
pub open spec fn tokens_of(s: Seq<char>) -> Seq<(Seq<char>, bool)>
    decreases s.len(),
{
    if s.len() == 0 {
        Seq::empty()
    } else {
        proof {
            lemma_rest_after_decreases(s);
        }
        seq![next_token_of(s)] + tokens_of(rest_after(s))
    }
}

// ---------------------------------------------------------------------------
// The executable lexer.
// ---------------------------------------------------------------------------

/// Scans a template left to right, handing out one segment at a time.
pub struct Lexer<'a> {
    content: &'a [char],
}

impl<'a> Lexer<'a> {
    /// The characters not yet consumed.
    pub closed spec fn remaining(&self) -> Seq<char> {
        self.content@
    }

    pub fn new(content: &'a [char]) -> (r: Self)
        ensures
            r.remaining() == content@,
    {
        Lexer { content }
    }

    /// Splits off the first `n` characters.
    fn chop(&mut self, n: usize) -> (t: &'a [char])
        requires
            n <= old(self).remaining().len(),
        ensures
            t@ == old(self).remaining().take(n as int),
            final(self).remaining() == old(self).remaining().skip(n as int),
    {
        let token = slice_subrange(self.content, 0, n);
        self.content = slice_subrange(self.content, n, self.content.len());
        token
    }

    /// Splits off the maximal prefix whose characters compare to `target` as
    /// `eq` says.
    fn chop_while(&mut self, target: char, eq: bool) -> (t: &'a [char])
        ensures
            t@ == old(self).remaining().take(run_len(old(self).remaining(), target, eq) as int),
            final(self).remaining() == old(self).remaining().skip(
                run_len(old(self).remaining(), target, eq) as int,
            ),
    {
        let mut n: usize = 0;
        while n < self.content.len() && (*slice_index_get(self.content, n) == target) == eq
            invariant
                n <= self.content@.len(),
                self.content == old(self).content,
                forall|j: int| 0 <= j < n ==> (self.content@[j] == target) == eq,
            decreases self.content@.len() - n,
        {
            n = n + 1;
        }
        proof {
            lemma_run_len_exact(self.content@, target, eq, n as int);
        }
        self.chop(n)
    }

    /// Hands out the next segment: a placeholder name (true) or a literal run
    /// (false); `None` once the template is exhausted.
    pub fn next_token(&mut self) -> (r: Option<(String, bool)>)
        ensures
            r is Some <==> old(self).remaining().len() > 0,
            match r {
                None => final(self).remaining() == old(self).remaining(),
                Some(tok) => {
                    &&& tok.0@ == next_token_of(old(self).remaining()).0
                    &&& tok.1 == next_token_of(old(self).remaining()).1
                    &&& final(self).remaining() == rest_after(old(self).remaining())
                },
            },
    {
        if self.content.len() == 0 {
            return None;
        }
        if *slice_index_get(self.content, 0) == '{' {
            self.chop_while('{', true);
            let token = self.chop_while('}', false);
            self.chop_while('}', true);
            return Some((chars_to_string(token), true));
        }
        let token = self.chop_while('{', false);
        Some((chars_to_string(token), false))
    }
}

/// Relies on `String`'s `FromIterator<char>` implementation: collecting
/// characters yields the string of exactly those characters, in order.
#[verifier::external_body]
fn chars_to_string(chars: &[char]) -> (r: String)
    ensures
        r@ == chars@,
{
    chars.iter().collect()
}

// ---------------------------------------------------------------------------
// Substitution model.
// ---------------------------------------------------------------------------

/// What one segment contributes to the rendered text: a literal passes
/// through, a resolved placeholder becomes its value, an unresolved one
/// contributes nothing (it is reported instead).
pub open spec fn token_text(t: (Seq<char>, bool), m: Map<Seq<char>, Seq<char>>) -> Seq<char> {
    if t.1 {
        if m.contains_key(t.0) {
            m[t.0]
        } else {
            Seq::empty()
        }
    } else {
        t.0
    }
}

/// The names one segment reports as missing: its own name if it is a
/// placeholder absent from the mapping, nothing otherwise.
pub open spec fn token_missing(t: (Seq<char>, bool), m: Map<Seq<char>, Seq<char>>) -> Seq<
    Seq<char>,
> {
    if t.1 && !m.contains_key(t.0) {
        seq![t.0]
    } else {
        Seq::empty()
    }
}

pub open spec fn render_tokens(ts: Seq<(Seq<char>, bool)>, m: Map<Seq<char>, Seq<char>>) -> Seq<
    char,
>
    decreases ts.len(),
{
    if ts.len() == 0 {
        Seq::empty()
    } else {
        token_text(ts[0], m) + render_tokens(ts.drop_first(), m)
    }
}

pub open spec fn missing_tokens(ts: Seq<(Seq<char>, bool)>, m: Map<Seq<char>, Seq<char>>) -> Seq<
    Seq<char>,
>
    decreases ts.len(),
{
    if ts.len() == 0 {
        Seq::empty()
    } else {
        token_missing(ts[0], m) + missing_tokens(ts.drop_first(), m)
    }
}

/// The text a template renders to under a mapping, with every unresolved
/// placeholder contributing nothing.
pub open spec fn spec_rendered(s: Seq<char>, m: Map<Seq<char>, Seq<char>>) -> Seq<char> {
    render_tokens(tokens_of(s), m)
}

/// The placeholder names of a template that the mapping does not resolve, in
/// order of occurrence, one entry per occurrence.
pub open spec fn spec_missing(s: Seq<char>, m: Map<Seq<char>, Seq<char>>) -> Seq<Seq<char>> {
    missing_tokens(tokens_of(s), m)
}

proof fn lemma_tokens_cons(t: (Seq<char>, bool), ts: Seq<(Seq<char>, bool)>, m: Map<
    Seq<char>,
    Seq<char>,
>)
    ensures
        render_tokens(seq![t] + ts, m) == token_text(t, m) + render_tokens(ts, m),
        missing_tokens(seq![t] + ts, m) == token_missing(t, m) + missing_tokens(ts, m),
{
    assert((seq![t] + ts)[0] == t);
    assert((seq![t] + ts).drop_first() =~= ts);
}

// ---------------------------------------------------------------------------
// The aggregated rendering error.
// ---------------------------------------------------------------------------

/// The quoted, comma-separated listing of a sequence of names.
pub open spec fn quoted_list(keys: Seq<Seq<char>>) -> Seq<char>
    decreases keys.len(),
{
    if keys.len() == 0 {
        Seq::empty()
    } else if keys.len() == 1 {
        "'"@ + keys[0] + "'"@
    } else {
        quoted_list(keys.drop_last()) + ", "@ + "'"@ + keys.last() + "'"@
    }
}

/// The text of the aggregated error for a sequence of missing names.
pub open spec fn error_message(keys: Seq<Seq<char>>) -> Seq<char> {
    "Could not find keys: "@ + quoted_list(keys)
}

/// The failure of one render call: every placeholder name the mapping did not
/// resolve, in order of occurrence.
#[derive(Debug)]
pub struct ReplaceError {
    keys: Vec<String>,
}

impl View for ReplaceError {
    type V = Seq<Seq<char>>;

    closed spec fn view(&self) -> Seq<Seq<char>> {
        self.keys.deep_view()
    }
}

impl ReplaceError {
    pub fn new(keys: Vec<String>) -> (r: ReplaceError)
        ensures
            r@ == keys.deep_view(),
    {
        ReplaceError { keys }
    }

    /// The missing names, in order of occurrence in the template.
    pub fn keys(&self) -> (r: &Vec<String>)
        ensures
            r.deep_view() == self@,
    {
        &self.keys
    }

    /// A human-readable account of the failure, naming every missing key.
    pub fn message(&self) -> (r: String)
        ensures
            r@ == error_message(self@),
    {
        let mut out = String::from_str("Could not find keys: ");
        let mut i: usize = 0;
        while i < self.keys.len()
            invariant
                i <= self.keys@.len(),
                out@ == "Could not find keys: "@ + quoted_list(self@.take(i as int)),
            decreases self.keys@.len() - i,
        {
            if i > 0 {
                out.append(", ");
            }
            out.append("'");
            out.append(self.keys[i].as_str());
            out.append("'");
            proof {
                assert(self@.take(i + 1 as int).drop_last() =~= self@.take(i as int));
                assert(self@.take(i + 1 as int).last() == self@[i as int]);
                assert(out@ == "Could not find keys: "@ + quoted_list(self@.take(i + 1 as int)));
            }
            i = i + 1;
        }
        proof {
            assert(self@.take(self.keys@.len() as int) =~= self@);
        }
        out
    }
}

impl PartialEq for ReplaceError {
    /// Two errors are equal when they carry the same names in the same order.
    fn eq(&self, other: &Self) -> (r: bool)
        ensures
            r == (self@ == other@),
    {
        if self.keys.len() != other.keys.len() {
            proof {
                assert(self@.len() != other@.len());
            }
            return false;
        }
        let mut i: usize = 0;
        while i < self.keys.len()
            invariant
                i <= self.keys@.len(),
                self.keys@.len() == other.keys@.len(),
                forall|j: int| 0 <= j < i ==> self@[j] == other@[j],
            decreases self.keys@.len() - i,
        {
            if !(self.keys[i] == other.keys[i]) {
                proof {
                    assert(self@[i as int] != other@[i as int]);
                }
                return false;
            }
            i = i + 1;
        }
        proof {
            assert(self@ =~= other@);
        }
        true
    }
}

impl vstd::std_specs::cmp::PartialEqSpecImpl for ReplaceError {
    open spec fn obeys_eq_spec() -> bool {
        true
    }

    open spec fn eq_spec(&self, other: &Self) -> bool {
        self@ == other@
    }
}

// ---------------------------------------------------------------------------
// Rendering.
// ---------------------------------------------------------------------------

/// The characters of a string, in order.
fn chars_of_str(s: &str) -> (r: Vec<char>)
    ensures
        r@ == s@,
{
    let n = s.unicode_len();
    let mut v: Vec<char> = Vec::new();
    let mut i: usize = 0;
    while i < n
        invariant
            n == s@.len(),
            i <= n,
            v@ == s@.take(i as int),
        decreases n - i,
    {
        v.push(s.get_char(i));
        proof {
            assert(s@.take(i + 1 as int) =~= s@.take(i as int).push(s@[i as int]));
        }
        i = i + 1;
    }
    proof {
        assert(s@.take(n as int) =~= s@);
    }
    v
}

/// Substitutes every placeholder of `string` with its value under
/// `variables`. Succeeds with the fully substituted text exactly when every
/// placeholder name is present; otherwise fails with every missing name, in
/// order of occurrence, and returns no partial text.
pub fn replace_variables(string: &str, variables: &VarMap) -> (r: Result<String, ReplaceError>)
    ensures
        r is Ok <==> spec_missing(string@, variables@).len() == 0,
        match r {
            Ok(out) => out@ == spec_rendered(string@, variables@),
            Err(e) => e@ == spec_missing(string@, variables@),
        },
{
    let chars = chars_of_str(string);
    let mut lexer = Lexer::new(chars.as_slice());
    let mut err_keys: Vec<String> = Vec::new();
    let mut result = String::new();
    proof {
        assert(result@ + render_tokens(tokens_of(string@), variables@) =~= spec_rendered(
            string@,
            variables@,
        ));
        assert(err_keys.deep_view() + missing_tokens(tokens_of(string@), variables@)
            =~= spec_missing(string@, variables@));
    }
    loop
        invariant
            result@ + render_tokens(tokens_of(lexer.remaining()), variables@) == spec_rendered(
                string@,
                variables@,
            ),
            err_keys.deep_view() + missing_tokens(tokens_of(lexer.remaining()), variables@)
                == spec_missing(string@, variables@),
        ensures
            lexer.remaining().len() == 0,
        decreases lexer.remaining().len(),
    {
        let ghost s0 = lexer.remaining();
        match lexer.next_token() {
            None => {
                break ;
            },
            Some((token, is_variable)) => {
                proof {
                    lemma_rest_after_decreases(s0);
                    lemma_tokens_cons(next_token_of(s0), tokens_of(rest_after(s0)), variables@);
                }
                let ghost t = next_token_of(s0);
                if is_variable {
                    match variables.get(&token) {
                        Some(value) => {
                            result.append(value.as_str());
                            proof {
                                assert(result@ + render_tokens(
                                    tokens_of(lexer.remaining()),
                                    variables@,
                                ) =~= spec_rendered(string@, variables@));
                            }
                        },
                        None => {
                            err_keys.push(token);
                            proof {
                                assert(err_keys.deep_view() =~= err_keys.deep_view().drop_last()
                                    + seq![t.0]);
                                assert(err_keys.deep_view() + missing_tokens(
                                    tokens_of(lexer.remaining()),
                                    variables@,
                                ) =~= spec_missing(string@, variables@));
                            }
                        },
                    }
                } else {
                    result.append(token.as_str());
                    proof {
                        assert(result@ + render_tokens(tokens_of(lexer.remaining()), variables@)
                            =~= spec_rendered(string@, variables@));
                    }
                }
            },
        }
    }
    proof {
        assert(result@ + render_tokens(tokens_of(lexer.remaining()), variables@) =~= result@);
        assert(err_keys.deep_view() + missing_tokens(tokens_of(lexer.remaining()), variables@)
            =~= err_keys.deep_view());
    }
    if err_keys.len() == 0 {
        proof {
            assert(err_keys.deep_view() =~= Seq::<Seq<char>>::empty());
        }
        Ok(result)
    } else {
        Err(ReplaceError::new(err_keys))
    }
}

// ---------------------------------------------------------------------------
// Laws.
// ---------------------------------------------------------------------------

/// Law: a template with no `{` renders to itself, under any mapping, with
/// nothing missing.
pub proof fn lemma_literal_only_round_trip(s: Seq<char>, m: Map<Seq<char>, Seq<char>>)
    requires
        forall|i: int| 0 <= i < s.len() ==> s[i] != '{',
    ensures
        spec_missing(s, m).len() == 0,
        spec_rendered(s, m) == s,
{
    if s.len() == 0 {
        assert(spec_rendered(s, m) =~= s);
    } else {
        lemma_run_len_exact(s, '{', false, s.len() as int);
        assert(next_token_of(s) == (s.take(s.len() as int), false));
        assert(s.take(s.len() as int) =~= s);
        assert(rest_after(s) =~= Seq::<char>::empty());
        lemma_tokens_cons((s, false), tokens_of(Seq::<char>::empty()), m);
        assert(tokens_of(s) == seq![(s, false)] + tokens_of(Seq::<char>::empty()));
        assert(spec_rendered(s, m) =~= s);
        assert(spec_missing(s, m) =~= Seq::<Seq<char>>::empty());
    }
}

/// Law: rendering is deterministic — any two results that meet
/// `replace_variables`' contract for one template and one mapping agree:
/// both succeed or both fail, with the same text or the same missing names.
/// The renderer has no hidden state.
pub proof fn lemma_rendering_idempotent(
    s: Seq<char>,
    m: Map<Seq<char>, Seq<char>>,
    r1: Result<String, ReplaceError>,
    r2: Result<String, ReplaceError>,
)
    requires
        r1 is Ok <==> spec_missing(s, m).len() == 0,
        r2 is Ok <==> spec_missing(s, m).len() == 0,
        match r1 {
            Ok(out) => out@ == spec_rendered(s, m),
            Err(e) => e@ == spec_missing(s, m),
        },
        match r2 {
            Ok(out) => out@ == spec_rendered(s, m),
            Err(e) => e@ == spec_missing(s, m),
        },
    ensures
        r1 is Ok <==> r2 is Ok,
        match (r1, r2) {
            (Ok(out1), Ok(out2)) => out1@ == out2@,
            (Err(e1), Err(e2)) => e1@ == e2@,
            _ => true,
        },
{
}

proof fn lemma_missing_tokens_complete(ts: Seq<(Seq<char>, bool)>, m: Map<Seq<char>, Seq<char>>)
    ensures
        forall|k: int|
            0 <= k < ts.len() && ts[k].1 && !m.contains_key(#[trigger] ts[k].0)
                ==> missing_tokens(ts, m).contains(ts[k].0),
    decreases ts.len(),
{
    if ts.len() > 0 {
        lemma_missing_tokens_complete(ts.drop_first(), m);
        let tail = missing_tokens(ts.drop_first(), m);
        let head = token_missing(ts[0], m);
        assert forall|k: int|
            0 <= k < ts.len() && ts[k].1 && !m.contains_key(#[trigger] ts[k].0) implies missing_tokens(
            ts,
            m,
        ).contains(ts[k].0) by {
            if k == 0 {
                assert(missing_tokens(ts, m)[0] == ts[0].0);
            } else {
                assert(ts.drop_first()[k - 1] == ts[k]);
                let i = choose|i: int| 0 <= i < tail.len() && tail[i] == ts[k].0;
                assert(missing_tokens(ts, m)[head.len() + i] == ts[k].0);
            }
        }
    }
}

/// Law: every unresolved placeholder of a template is reported in the one
/// missing-name listing — none is dropped for coming after another.
pub proof fn lemma_all_missing_reported(s: Seq<char>, m: Map<Seq<char>, Seq<char>>)
    ensures
        forall|k: int|
            0 <= k < tokens_of(s).len() && tokens_of(s)[k].1 && !m.contains_key(
                #[trigger] tokens_of(s)[k].0,
            ) ==> spec_missing(s, m).contains(tokens_of(s)[k].0),
{
    lemma_missing_tokens_complete(tokens_of(s), m);
}

/// Law: any run of `{` before a name and any run of `}` after it delimit the
/// same single placeholder — so doubling braces has no escaping effect.
///
/// The name must hold no `}` and not start with `{`, and what follows must
/// not start with `}`, else the greedy runs would take those characters too.
pub proof fn lemma_brace_runs_collapse(a: nat, b: nat, name: Seq<char>, rest: Seq<char>)
    requires
        a >= 1,
        b >= 1,
        forall|i: int| 0 <= i < name.len() ==> name[i] != '}',
        name.len() > 0 ==> name[0] != '{',
        rest.len() > 0 ==> rest[0] != '}',
    ensures
        ({
            let s = Seq::new(a, |i: int| '{') + name + Seq::new(b, |i: int| '}') + rest;
            &&& s.len() > 0
            &&& next_token_of(s) == (name, true)
            &&& rest_after(s) == rest
        }),
{
    let opens = Seq::new(a, |i: int| '{');
    let closes = Seq::new(b, |i: int| '}');
    let s = opens + name + closes + rest;
    assert(s.len() == a + name.len() + b + rest.len());
    assert(s[0] == '{');
    lemma_run_len_exact(s, '{', true, a as int);
    let after_open = s.skip(a as int);
    assert(after_open =~= name + closes + rest);
    assert forall|j: int| 0 <= j < name.len() implies (after_open[j] == '}') == false by {
        assert(after_open[j] == name[j]);
    }
    assert(name.len() < after_open.len() && after_open[name.len() as int] == '}');
    lemma_run_len_exact(after_open, '}', false, name.len() as int);
    assert(after_open.take(name.len() as int) =~= name);
    let after_name = after_open.skip(name.len() as int);
    assert(after_name =~= closes + rest);
    lemma_run_len_exact(after_name, '}', true, b as int);
    assert(after_name.skip(b as int) =~= rest);
}

/// Every character of the run matches, and the character after it (if any)
/// does not.
proof fn lemma_run_len_spec(s: Seq<char>, target: char, eq: bool)
    ensures
        run_len(s, target, eq) <= s.len(),
        forall|j: int| 0 <= j < run_len(s, target, eq) ==> (s[j] == target) == eq,
        run_len(s, target, eq) < s.len() ==> (s[run_len(s, target, eq) as int] == target) != eq,
    decreases s.len(),
{
    lemma_run_len_le(s, target, eq);
    if s.len() > 0 && (s[0] == target) == eq {
        lemma_run_len_spec(s.drop_first(), target, eq);
        assert forall|j: int| 0 <= j < run_len(s, target, eq) implies (s[j] == target) == eq by {
            if j > 0 {
                assert((s.drop_first()[j - 1] == target) == eq);
            }
        }
        if run_len(s, target, eq) < s.len() {
            assert(s[run_len(s, target, eq) as int]
                == s.drop_first()[run_len(s.drop_first(), target, eq) as int]);
        }
    }
}

/// A run that stops within the prefix, or whose boundary the tail's first
/// character supplies, is unchanged by the tail.
proof fn lemma_run_len_concat(pre: Seq<char>, tail: Seq<char>, target: char, eq: bool)
    requires
        run_len(pre, target, eq) < pre.len() || tail.len() == 0 || (tail[0] == target) != eq,
    ensures
        run_len(pre + tail, target, eq) == run_len(pre, target, eq),
{
    let n = run_len(pre, target, eq) as int;
    lemma_run_len_spec(pre, target, eq);
    assert forall|j: int| 0 <= j < n implies ((pre + tail)[j] == target) == eq by {
        assert((pre + tail)[j] == pre[j]);
    }
    if n < (pre + tail).len() {
        if n < pre.len() {
            assert((pre + tail)[n] == pre[n]);
        } else {
            assert((pre + tail)[n] == tail[n - pre.len()]);
        }
    }
    lemma_run_len_exact(pre + tail, target, eq, n);
}

/// A text is brace-terminated when every `{` in it has a later `}`: its scan
/// then ends at a segment boundary and never looks past its end.
pub open spec fn terminated(s: Seq<char>) -> bool {
    forall|i: int|
        0 <= i < s.len() && #[trigger] s[i] == '{' ==> exists|j: int|
            i < j < s.len() && #[trigger] s[j] == '}'
}

proof fn lemma_terminated_skip(s: Seq<char>, k: int)
    requires
        terminated(s),
        0 <= k <= s.len(),
    ensures
        terminated(s.skip(k)),
{
    assert forall|i: int|
        0 <= i < s.skip(k).len() && #[trigger] s.skip(k)[i] == '{' implies exists|j: int|
        i < j < s.skip(k).len() && #[trigger] s.skip(k)[j] == '}' by {
        assert(s[k + i] == '{');
        let j = choose|j: int| k + i < j < s.len() && #[trigger] s[j] == '}';
        assert(s.skip(k)[j - k] == '}');
    }
}

/// One scan step over a brace-terminated prefix is the same with or without
/// a tail that starts a placeholder.
proof fn lemma_scan_step_concat(pre: Seq<char>, tail: Seq<char>)
    requires
        pre.len() > 0,
        terminated(pre),
        tail.len() > 0 ==> tail[0] == '{',
    ensures
        next_token_of(pre + tail) == next_token_of(pre),
        rest_after(pre + tail) == rest_after(pre) + tail,
        terminated(rest_after(pre)),
        rest_after(pre).len() < pre.len(),
{
    let s = pre + tail;
    assert(s[0] == pre[0]);
    lemma_rest_after_decreases(pre);
    if pre[0] == '{' {
        lemma_run_len_spec(pre, '{', true);
        let a = run_len(pre, '{', true) as int;
        let j0 = choose|j: int| 0 < j < pre.len() && #[trigger] pre[j] == '}';
        assert(pre[j0] == '}');
        if a == pre.len() {
            assert((pre[j0] == '{') == true);
            assert(false);
        }
        lemma_run_len_concat(pre, tail, '{', true);
        let after_open_pre = pre.skip(a);
        assert(s.skip(a) =~= after_open_pre + tail);
        assert(j0 >= a) by {
            if j0 < a {
                assert((pre[j0] == '{') == true);
            }
        }
        assert(after_open_pre[j0 - a] == '}');
        lemma_run_len_spec(after_open_pre, '}', false);
        let m = run_len(after_open_pre, '}', false) as int;
        if m == after_open_pre.len() {
            assert((after_open_pre[j0 - a] == '}') == false);
            assert(false);
        }
        lemma_run_len_concat(after_open_pre, tail, '}', false);
        assert((after_open_pre + tail).take(m) =~= after_open_pre.take(m));
        assert(next_token_of(s).0 == next_token_of(pre).0);
        assert(next_token_of(s).1 == next_token_of(pre).1);
        let after_name_pre = after_open_pre.skip(m);
        assert((after_open_pre + tail).skip(m) =~= after_name_pre + tail);
        lemma_run_len_le(after_name_pre, '}', true);
        let b = run_len(after_name_pre, '}', true) as int;
        lemma_run_len_concat(after_name_pre, tail, '}', true);
        assert((after_name_pre + tail).skip(b) =~= after_name_pre.skip(b) + tail);
        assert(rest_after(s) == rest_after(pre) + tail);
        lemma_terminated_skip(pre, a);
        lemma_terminated_skip(after_open_pre, m);
        lemma_terminated_skip(after_name_pre, b);
    } else {
        lemma_run_len_le(pre, '{', false);
        let n = run_len(pre, '{', false) as int;
        lemma_run_len_concat(pre, tail, '{', false);
        assert(s.take(n) =~= pre.take(n));
        assert(next_token_of(s).0 == next_token_of(pre).0);
        assert(s.skip(n) =~= pre.skip(n) + tail);
        lemma_terminated_skip(pre, n);
    }
}

/// Law: a brace-terminated text scans independently of what follows it, when
/// what follows starts a placeholder or is empty — the segments of the whole
/// are its segments, then the tail's.
pub proof fn lemma_tokens_append(pre: Seq<char>, tail: Seq<char>)
    requires
        terminated(pre),
        tail.len() > 0 ==> tail[0] == '{',
    ensures
        tokens_of(pre + tail) == tokens_of(pre) + tokens_of(tail),
    decreases pre.len(),
{
    if pre.len() == 0 {
        assert(pre + tail =~= tail);
        assert(tokens_of(pre) + tokens_of(tail) =~= tokens_of(tail));
    } else {
        lemma_scan_step_concat(pre, tail);
        lemma_tokens_append(rest_after(pre), tail);
        assert((pre + tail).len() > 0);
        assert(tokens_of(pre + tail) =~= tokens_of(pre) + tokens_of(tail));
    }
}

/// Law: two templates that differ only in the lengths of the brace runs
/// around one leading placeholder decompose into the same segments, and so
/// render alike under every mapping. In particular `{{name}}` and `{name}`
/// are equivalent.
pub proof fn lemma_doubled_braces_equivalent(
    a1: nat,
    b1: nat,
    a2: nat,
    b2: nat,
    name: Seq<char>,
    rest: Seq<char>,
)
    requires
        a1 >= 1,
        b1 >= 1,
        a2 >= 1,
        b2 >= 1,
        forall|i: int| 0 <= i < name.len() ==> name[i] != '}',
        name.len() > 0 ==> name[0] != '{',
        rest.len() > 0 ==> rest[0] != '}',
    ensures
        tokens_of(Seq::new(a1, |i: int| '{') + name + Seq::new(b1, |i: int| '}') + rest)
            == tokens_of(Seq::new(a2, |i: int| '{') + name + Seq::new(b2, |i: int| '}') + rest),
{
    lemma_brace_runs_collapse(a1, b1, name, rest);
    lemma_brace_runs_collapse(a2, b2, name, rest);
}

/// Law: rewriting one placeholder with longer brace runs changes nothing,
/// wherever the placeholder stands. The text before it must be
/// brace-terminated (every `{` there already closed) — exactly then the
/// rewritten braces open a placeholder of their own rather than extend an
/// earlier unterminated one. The two templates decompose into the same
/// segments, so they render alike, with the same missing names, under every
/// mapping.
pub proof fn lemma_doubled_braces_equivalent_anywhere(
    pre: Seq<char>,
    a1: nat,
    b1: nat,
    a2: nat,
    b2: nat,
    name: Seq<char>,
    rest: Seq<char>,
    m: Map<Seq<char>, Seq<char>>,
)
    requires
        terminated(pre),
        a1 >= 1,
        b1 >= 1,
        a2 >= 1,
        b2 >= 1,
        forall|i: int| 0 <= i < name.len() ==> name[i] != '}',
        name.len() > 0 ==> name[0] != '{',
        rest.len() > 0 ==> rest[0] != '}',
    ensures
        ({
            let t1 = pre + (Seq::new(a1, |i: int| '{') + name + Seq::new(b1, |i: int| '}') + rest);
            let t2 = pre + (Seq::new(a2, |i: int| '{') + name + Seq::new(b2, |i: int| '}') + rest);
            &&& tokens_of(t1) == tokens_of(t2)
            &&& spec_rendered(t1, m) == spec_rendered(t2, m)
            &&& spec_missing(t1, m) == spec_missing(t2, m)
        }),
{
    let s1 = Seq::new(a1, |i: int| '{') + name + Seq::new(b1, |i: int| '}') + rest;
    let s2 = Seq::new(a2, |i: int| '{') + name + Seq::new(b2, |i: int| '}') + rest;
    assert(s1[0] == '{');
    assert(s2[0] == '{');
    lemma_tokens_append(pre, s1);
    lemma_tokens_append(pre, s2);
    lemma_doubled_braces_equivalent(a1, b1, a2, b2, name, rest);
}

} // verus!


