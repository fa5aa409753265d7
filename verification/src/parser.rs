//! The directive grammar and the parser. A directive is a span of the form
//! `{{ name ( 'arg', 'arg', ... ) }}`: the scanner finds every such span left
//! to right, tokenizes the quoted arguments, dispatches on the command name,
//! and collects the distinct well-formed commands in order of first
//! appearance. A span that fails to parse is reported and dropped; it never
//! stops the scan.
use vstd::prelude::*;
use vstd::string::*;

use crate::error::Error;
use crate::error::arguments_message;
use crate::error::spec_arguments_message;
use crate::error::spec_unknown_message;
use crate::text::arg_char;
use crate::text::imax;
use crate::text::is_arg_char;
use crate::text::is_name_char;
use crate::text::is_space;
use crate::text::lemma_skip_while_bounds;
use crate::text::name_char;
use crate::text::skip_args;
use crate::text::skip_args_str;
use crate::text::skip_name;
use crate::text::skip_name_str;
use crate::text::skip_spaces;
use crate::text::skip_spaces_str;
use crate::text::space_char;
use crate::text::str_eq;
use crate::text::strip_backslashes;
use crate::text::strip_backslashes_str;

verus! {

/// One directive occurrence, located and split into its tokens.
/// `raw` is the exact text of the span, `name` the command name token and
/// `args` the raw argument string between the parentheses.
pub ghost struct DirectiveSpan {
    pub start: int,
    pub end: int,
    pub raw: Seq<char>,
    pub name: Seq<char>,
    pub args: Seq<char>,
}

/// The mathematical value of a parsed command.
pub ghost enum CommandView {
    Lookup { path: Seq<char>, key: Seq<char> },
}

impl CommandView {
    /// The path of the secret container the command addresses.
    pub open spec fn path(self) -> Seq<char> {
        match self {
            CommandView::Lookup { path, .. } => path,
        }
    }

    /// The key the command extracts from the container's document.
    pub open spec fn key(self) -> Seq<char> {
        match self {
            CommandView::Lookup { key, .. } => key,
        }
    }
}

/// The mathematical value of a parsed directive: its exact source text and
/// the command it denotes.
pub ghost struct ParsedView {
    pub raw: Seq<char>,
    pub command: CommandView,
}

/// The directive span starting exactly at position `i` of `s`, if any:
/// `{{`, optional whitespace, a nonempty name, optional whitespace, `(`,
/// a nonempty argument string up to the first `)`, optional whitespace, `}}`.
pub open spec fn span_at(s: Seq<char>, i: int) -> Option<DirectiveSpan> {
    if 0 <= i && i + 2 <= s.len() && s[i] == '{' && s[i + 1] == '{' {
        let n0 = skip_spaces(s, i + 2);
        let n1 = skip_name(s, n0);
        if n1 > n0 {
            let p = skip_spaces(s, n1);
            if p < s.len() && s[p] == '(' {
                let a1 = skip_args(s, p + 1);
                if a1 > p + 1 && a1 < s.len() && s[a1] == ')' {
                    let q = skip_spaces(s, a1 + 1);
                    if q + 2 <= s.len() && s[q] == '}' && s[q + 1] == '}' {
                        Some(
                            DirectiveSpan {
                                start: i,
                                end: q + 2,
                                raw: s.subrange(i, q + 2),
                                name: s.subrange(n0, n1),
                                args: s.subrange(p + 1, a1),
                            },
                        )
                    } else {
                        None
                    }
                } else {
                    None
                }
            } else {
                None
            }
        } else {
            None
        }
    } else {
        None
    }
}

pub proof fn lemma_span_at_some(s: Seq<char>, i: int)
    ensures
        span_at(s, i) matches Some(m) ==> m.start == i && i + 2 <= m.end <= s.len(),
{
    if span_at(s, i) is Some {
        lemma_skip_while_bounds(s, i + 2, |c: char| is_space(c));
        let n0 = skip_spaces(s, i + 2);
        lemma_skip_while_bounds(s, n0, |c: char| is_name_char(c));
        let n1 = skip_name(s, n0);
        lemma_skip_while_bounds(s, n1, |c: char| is_space(c));
        let p = skip_spaces(s, n1);
        lemma_skip_while_bounds(s, p + 1, |c: char| is_arg_char(c));
        let a1 = skip_args(s, p + 1);
        lemma_skip_while_bounds(s, a1 + 1, |c: char| is_space(c));
    }
}

/// The first directive span at or after position `i`.
pub open spec fn find_span(s: Seq<char>, i: int) -> Option<DirectiveSpan>
    decreases s.len() - i,
{
    if i < 0 || i >= s.len() {
        None
    } else if span_at(s, i) is Some {
        span_at(s, i)
    } else {
        find_span(s, i + 1)
    }
}

/// Every directive span of `s` from position `i` on, in source order. After
/// a span is taken the scan resumes at its end, so spans never overlap.
pub open spec fn spans_from(s: Seq<char>, i: int) -> Seq<DirectiveSpan>
    decreases s.len() - i,
    via spans_from_decreases
{
    if i < 0 || i >= s.len() {
        Seq::empty()
    } else {
        match span_at(s, i) {
            Some(m) => Seq::empty().push(m) + spans_from(s, imax(i + 1, m.end)),
            None => spans_from(s, i + 1),
        }
    }
}

#[via_fn]
proof fn spans_from_decreases(s: Seq<char>, i: int) {
    lemma_span_at_some(s, i);
}

/// Relates the scan to its first step: either there is no span at all, or
/// the scan is the first span followed by the scan past it.
pub proof fn lemma_spans_from_find(s: Seq<char>, i: int)
    requires
        0 <= i,
    ensures
        find_span(s, i) is None ==> spans_from(s, i) == Seq::<DirectiveSpan>::empty(),
        find_span(s, i) matches Some(m) ==> spans_from(s, i) == Seq::empty().push(m)
            + spans_from(s, imax(m.start + 1, m.end)) && i <= m.start && span_at(s, m.start)
            == Some(m),
    decreases s.len() - i,
{
    if i >= s.len() {
    } else if span_at(s, i) is Some {
        lemma_span_at_some(s, i);
    } else {
        lemma_spans_from_find(s, i + 1);
    }
}

/// The position of the closing quote `q` for a literal opened at `open`:
/// the first position at or after `k` holding `q`, not immediately preceded
/// by a backslash, with at least one character of content before it.
pub open spec fn close_quote(s: Seq<char>, q: char, open: int, k: int) -> Option<int>
    decreases s.len() - k,
{
    if k < 0 || k >= s.len() {
        None
    } else if s[k] == q && k >= open + 2 && s[k - 1] != '\\' {
        Some(k)
    } else {
        close_quote(s, q, open, k + 1)
    }
}

pub proof fn lemma_close_quote_some(s: Seq<char>, q: char, open: int, k: int)
    ensures
        close_quote(s, q, open, k) matches Some(j) ==> k <= j < s.len() && open + 2 <= j,
    decreases s.len() - k,
{
    if 0 <= k < s.len() && !(s[k] == q && k >= open + 2 && s[k - 1] != '\\') {
        lemma_close_quote_some(s, q, open, k + 1);
    }
}

/// A quote preceded by a backslash never terminates a literal: wherever a
/// literal closes, the character before the closing quote is no backslash,
/// so an escaped quote stays part of the argument.
pub proof fn lemma_escaped_quote_never_closes(s: Seq<char>, q: char, open: int, k: int)
    ensures
        close_quote(s, q, open, k) matches Some(j) ==> s[j] == q && s[j - 1] != '\\' && open + 2
            <= j,
    decreases s.len() - k,
{
    if 0 <= k < s.len() && !(s[k] == q && k >= open + 2 && s[k - 1] != '\\') {
        lemma_escaped_quote_never_closes(s, q, open, k + 1);
    }
}

pub open spec fn is_quote(c: char) -> bool {
    c == '\'' || c == '"'
}

/// The quoted string literals of the raw argument string `s` from position
/// `i` on, in order, each unescaped. An unterminated or empty literal is
/// passed over; unquoted tokens are ignored.
pub open spec fn args_from(s: Seq<char>, i: int) -> Seq<Seq<char>>
    decreases s.len() - i,
    via args_from_decreases
{
    if i < 0 || i >= s.len() {
        Seq::empty()
    } else if is_quote(s[i]) {
        match close_quote(s, s[i], i, i + 1) {
            Some(k) => Seq::empty().push(strip_backslashes(s.subrange(i + 1, k))) + args_from(
                s,
                imax(i + 1, k + 1),
            ),
            None => args_from(s, i + 1),
        }
    } else {
        args_from(s, i + 1)
    }
}

#[via_fn]
proof fn args_from_decreases(s: Seq<char>, i: int) {
    if 0 <= i < s.len() && is_quote(s[i]) {
        lemma_close_quote_some(s, s[i], i, i + 1);
    }
}

/// How one directive's tokens parse: a command, or one of the two failures.
pub ghost enum ParseOutcome {
    Parsed { command: CommandView },
    BadArity { name: Seq<char> },
    Unknown { name: Seq<char> },
}

/// Dispatch on the command name. `lookup` demands exactly two extracted
/// arguments and yields `Lookup { path, key }`; any other name is unknown.
pub open spec fn spec_command_parse(name: Seq<char>, args: Seq<char>) -> ParseOutcome {
    let xs = args_from(args, 0);
    if name == "lookup"@ {
        if xs.len() == 2 {
            ParseOutcome::Parsed { command: CommandView::Lookup { path: xs[0], key: xs[1] } }
        } else {
            ParseOutcome::BadArity { name: name }
        }
    } else {
        ParseOutcome::Unknown { name: name }
    }
}

/// The reason text a failed outcome reports.
pub open spec fn spec_outcome_reason(o: ParseOutcome) -> Seq<char> {
    match o {
        ParseOutcome::Parsed { .. } => Seq::empty(),
        ParseOutcome::BadArity { name } => spec_arguments_message(name),
        ParseOutcome::Unknown { name } => spec_unknown_message(name),
    }
}

/// The report for a directive span that could not be parsed.
pub open spec fn spec_wrap_message(raw: Seq<char>, reason: Seq<char>) -> Seq<char> {
    "The `"@ + raw + "` part can't be parsed properly. Reason: "@ + reason
}

/// The full line the scan reports for a failed directive span.
pub open spec fn spec_failure_line(raw: Seq<char>, o: ParseOutcome) -> Seq<char> {
    "Parse error: "@ + spec_wrap_message(raw, spec_outcome_reason(o))
}

/// The commands of the spans that parse, in source order, duplicates kept.
pub open spec fn successes(ms: Seq<DirectiveSpan>) -> Seq<ParsedView>
    decreases ms.len(),
{
    if ms.len() == 0 {
        Seq::empty()
    } else {
        let head = ms.first();
        let rest = successes(ms.drop_first());
        match spec_command_parse(head.name, head.args) {
            ParseOutcome::Parsed { command } => Seq::empty().push(
                ParsedView { raw: head.raw, command },
            ) + rest,
            _ => rest,
        }
    }
}

/// The reports of the spans that fail to parse, in source order.
pub open spec fn failures(ms: Seq<DirectiveSpan>) -> Seq<Seq<char>>
    decreases ms.len(),
{
    if ms.len() == 0 {
        Seq::empty()
    } else {
        let head = ms.first();
        let rest = failures(ms.drop_first());
        match spec_command_parse(head.name, head.args) {
            ParseOutcome::Parsed { .. } => rest,
            o => Seq::empty().push(spec_failure_line(head.raw, o)) + rest,
        }
    }
}

pub proof fn lemma_successes_cons(m: DirectiveSpan, rest: Seq<DirectiveSpan>)
    ensures
        successes(Seq::empty().push(m) + rest) == (match spec_command_parse(m.name, m.args) {
            ParseOutcome::Parsed { command } => Seq::empty().push(
                ParsedView { raw: m.raw, command },
            ) + successes(rest),
            _ => successes(rest),
        }),
        failures(Seq::empty().push(m) + rest) == (match spec_command_parse(m.name, m.args) {
            ParseOutcome::Parsed { .. } => failures(rest),
            o => Seq::empty().push(spec_failure_line(m.raw, o)) + failures(rest),
        }),
{
    let all = Seq::empty().push(m) + rest;
    assert(all.len() == 1 + rest.len());
    assert(all.first() == m);
    assert(all.drop_first() =~= rest);
}

/// Keeps the first occurrence of each element, dropping later duplicates:
/// the set semantics of the parser's result, with a definite order.
pub open spec fn dedup_views(s: Seq<ParsedView>) -> Seq<ParsedView>
    decreases s.len(),
{
    if s.len() == 0 {
        Seq::empty()
    } else {
        let rest = dedup_views(s.drop_last());
        if rest.contains(s.last()) {
            rest
        } else {
            rest.push(s.last())
        }
    }
}

/// What the parser returns for document `doc`: the distinct well-formed
/// commands among its directive spans, in order of first appearance.
pub open spec fn spec_parse(doc: Seq<char>) -> Seq<ParsedView> {
    dedup_views(successes(spans_from(doc, 0)))
}

pub proof fn lemma_dedup_no_duplicates(s: Seq<ParsedView>)
    ensures
        dedup_views(s).no_duplicates(),
        dedup_views(s).to_set() == s.to_set(),
        forall|x: ParsedView| dedup_views(s).contains(x) == s.contains(x),
    decreases s.len(),
{
    if s.len() == 0 {
        assert(dedup_views(s).to_set() =~= s.to_set());
    } else {
        lemma_dedup_no_duplicates(s.drop_last());
        let rest = dedup_views(s.drop_last());
        assert(forall|x: ParsedView| s.contains(x) == (s.drop_last().contains(x) || x == s.last()))
            by {
            assert forall|x: ParsedView| s.contains(x) implies (s.drop_last().contains(x) || x
                == s.last()) by {
                let j = choose|j: int| 0 <= j < s.len() && s[j] == x;
                if j < s.len() - 1 {
                    assert(s.drop_last()[j] == x);
                }
            }
            assert forall|x: ParsedView| (s.drop_last().contains(x) || x == s.last()) implies s
                .contains(x) by {
                if s.drop_last().contains(x) {
                    let j = choose|j: int| 0 <= j < s.drop_last().len() && s.drop_last()[j] == x;
                    assert(s[j] == x);
                } else {
                    assert(s[s.len() - 1] == x);
                }
            }
        }
        if rest.contains(s.last()) {
            assert(dedup_views(s).to_set() =~= s.to_set());
        } else {
            assert forall|x: ParsedView| dedup_views(s).contains(x) implies s.contains(x) by {
                let j = choose|j: int| 0 <= j < dedup_views(s).len() && dedup_views(s)[j] == x;
                if j < rest.len() {
                    assert(rest[j] == x);
                }
            }
            assert forall|x: ParsedView| s.contains(x) implies dedup_views(s).contains(x) by {
                if s.drop_last().contains(x) {
                    assert(rest.contains(x));
                    let j = choose|j: int| 0 <= j < rest.len() && rest[j] == x;
                    assert(dedup_views(s)[j] == x);
                } else {
                    assert(dedup_views(s).last() == x);
                }
            }
            assert(dedup_views(s).to_set() =~= s.to_set());
        }
    }
}

/// A sequence already free of duplicates is its own deduplication: a
/// document whose well-formed directives are pairwise distinct parses to
/// exactly one command per directive.
pub proof fn lemma_dedup_of_distinct(s: Seq<ParsedView>)
    requires
        s.no_duplicates(),
    ensures
        dedup_views(s) == s,
    decreases s.len(),
{
    if s.len() == 0 {
        assert(dedup_views(s) =~= s);
    } else {
        lemma_dedup_of_distinct(s.drop_last());
        lemma_dedup_no_duplicates(s.drop_last());
        if dedup_views(s.drop_last()).contains(s.last()) {
            let j = choose|j: int|
                0 <= j < s.drop_last().len() && s.drop_last()[j] == s.last();
            assert(s[j] == s[s.len() - 1]);
            assert(false);
        }
        assert(dedup_views(s) =~= s);
    }
}

/// A run of identical elements deduplicates to its single element: a
/// document that repeats the same directive text parses to one command.
pub proof fn lemma_dedup_of_repeated(s: Seq<ParsedView>, p: ParsedView)
    requires
        s.len() > 0,
        forall|j: int| 0 <= j < s.len() ==> s[j] == p,
    ensures
        dedup_views(s) == Seq::empty().push(p),
    decreases s.len(),
{
    if s.len() == 1 {
        assert(dedup_views(s.drop_last()) =~= Seq::<ParsedView>::empty());
        assert(dedup_views(s) =~= Seq::empty().push(p));
    } else {
        lemma_dedup_of_repeated(s.drop_last(), p);
        assert(s.last() == p);
        assert(dedup_views(s.drop_last()).contains(p)) by {
            assert(dedup_views(s.drop_last())[0] == p);
        }
    }
}

/// The sequence of views of a sequence of strings.
pub open spec fn string_views(v: Seq<String>) -> Seq<Seq<char>> {
    v.map_values(|s: String| s@)
}

/// The sequence of views of a sequence of parsed commands.
pub open spec fn views_of(v: Seq<ParsedCommand>) -> Seq<ParsedView> {
    v.map_values(|p: ParsedCommand| p@)
}

/// Scans a document for directives and turns them into commands.
#[derive(Debug)]
pub struct VaultCommandParser;

/// A directive occurrence together with the command it was parsed into.
/// Two occurrences with identical text parse to equal values.
#[derive(Debug)]
pub struct ParsedCommand {
    regex_match: String,
    command: VaultCommand,
}

/// The closed set of commands a directive can denote.
#[derive(Debug)]
pub enum VaultCommand {
    Lookup { path: String, key: String },
}

impl View for VaultCommand {
    type V = CommandView;

    open spec fn view(&self) -> CommandView {
        match self {
            VaultCommand::Lookup { path, key } => CommandView::Lookup {
                path: path@,
                key: key@,
            },
        }
    }
}

impl View for ParsedCommand {
    type V = ParsedView;

    closed spec fn view(&self) -> ParsedView {
        ParsedView { raw: self.regex_match@, command: self.command@ }
    }
}

/// One located directive occurrence, split into its tokens: the full span
/// text, the command name, the raw argument string, and the span's bounds
/// in character positions.
#[derive(Debug)]
pub struct DirectiveMatch {
    pub raw: String,
    pub name: String,
    pub args: String,
    pub start: usize,
    pub end: usize,
}

impl DirectiveMatch {
    pub open spec fn spec_span(&self) -> DirectiveSpan {
        DirectiveSpan {
            start: self.start as int,
            end: self.end as int,
            raw: self.raw@,
            name: self.name@,
            args: self.args@,
        }
    }
}

fn try_span_at(data: &str, n: usize, i: usize) -> (r: Option<DirectiveMatch>)
    requires
        n == data@.len(),
        i <= n,
    ensures
        match r {
            None => span_at(data@, i as int) is None,
            Some(dm) => span_at(data@, i as int) == Some(dm.spec_span()) && dm.start == i && i + 2
                <= dm.end <= n,
        },
{
    if n - i < 2 {
        return None;
    }
    if data.get_char(i) != '{' || data.get_char(i + 1) != '{' {
        return None;
    }
    let n0 = skip_spaces_str(data, n, i + 2);
    let n1 = skip_name_str(data, n, n0);
    if n1 == n0 {
        return None;
    }
    let p = skip_spaces_str(data, n, n1);
    if p == n {
        return None;
    }
    if data.get_char(p) != '(' {
        return None;
    }
    let a1 = skip_args_str(data, n, p + 1);
    if a1 == p + 1 {
        return None;
    }
    if a1 == n {
        return None;
    }
    if data.get_char(a1) != ')' {
        return None;
    }
    let q = skip_spaces_str(data, n, a1 + 1);
    if n - q < 2 {
        return None;
    }
    if data.get_char(q) != '}' || data.get_char(q + 1) != '}' {
        return None;
    }
    let end = q + 2;
    let dm = DirectiveMatch {
        raw: String::from_str(data.substring_char(i, end)),
        name: String::from_str(data.substring_char(n0, n1)),
        args: String::from_str(data.substring_char(p + 1, a1)),
        start: i,
        end,
    };
    proof {
        assert(span_at(data@, i as int) == Some(dm.spec_span()));
    }
    Some(dm)
}

/// Finds the first directive span of `data` at or after position `from`.
pub fn find_directive(data: &str, from: usize) -> (r: Option<DirectiveMatch>)
    requires
        from <= data@.len(),
    ensures
        match r {
            None => find_span(data@, from as int) is None,
            Some(dm) => find_span(data@, from as int) == Some(dm.spec_span()) && from <= dm.start
                && dm.start + 2 <= dm.end <= data@.len(),
        },
{
    let n = data.unicode_len();
    let mut j: usize = from;
    while j < n
        invariant
            from <= j <= n,
            n == data@.len(),
            find_span(data@, from as int) == find_span(data@, j as int),
        decreases n - j,
    {
        match try_span_at(data, n, j) {
            Some(dm) => {
                return Some(dm);
            },
            None => {},
        }
        j = j + 1;
    }
    None
}

/// Position of the closing quote `q` for a literal opened at `open`, if any.
fn find_close(args: &str, n: usize, q: char, open: usize) -> (r: Option<usize>)
    requires
        n == args@.len(),
        open < n,
    ensures
        match r {
            None => close_quote(args@, q, open as int, open + 1) is None,
            Some(k) => close_quote(args@, q, open as int, open + 1) == Some(k as int) && open + 2
                <= k < n,
        },
{
    let mut k: usize = open + 1;
    while k < n
        invariant
            open + 1 <= k <= n,
            n == args@.len(),
            close_quote(args@, q, open as int, open + 1) == close_quote(
                args@,
                q,
                open as int,
                k as int,
            ),
        decreases n - k,
    {
        if args.get_char(k) == q && k - open >= 2 && args.get_char(k - 1) != '\\' {
            return Some(k);
        }
        k = k + 1;
    }
    None
}

/// Extracts the quoted string arguments of a raw argument string, in order,
/// each with its backslash escapes removed.
pub fn extract_arguments(args: &str) -> (r: Vec<String>)
    ensures
        string_views(r@) == args_from(args@, 0),
{
    let n = args.unicode_len();
    let mut acc: Vec<String> = Vec::new();
    let mut i: usize = 0;
    proof {
        assert(string_views(acc@) =~= Seq::<Seq<char>>::empty());
        assert(string_views(acc@) + args_from(args@, 0) =~= args_from(args@, 0));
    }
    while i < n
        invariant
            i <= n,
            n == args@.len(),
            args_from(args@, 0) == string_views(acc@) + args_from(args@, i as int),
        decreases n - i,
    {
        let c = args.get_char(i);
        if c == '\'' || c == '"' {
            match find_close(args, n, c, i) {
                Some(k) => {
                    let value = strip_backslashes_str(args, n, i + 1, k);
                    let ghost old_views = string_views(acc@);
                    acc.push(value);
                    proof {
                        assert(string_views(acc@) =~= old_views.push(
                            strip_backslashes(args@.subrange(i + 1, k as int)),
                        ));
                        assert(imax(i + 1, k + 1) == k + 1);
                        assert(string_views(acc@) + args_from(args@, k + 1) =~= old_views + (
                        Seq::empty().push(strip_backslashes(args@.subrange(i + 1, k as int)))
                            + args_from(args@, k + 1)));
                    }
                    i = k + 1;
                },
                None => {
                    i = i + 1;
                },
            }
        } else {
            i = i + 1;
        }
    }
    proof {
        assert(string_views(acc@) + args_from(args@, n as int) =~= string_views(acc@));
    }
    acc
}

impl VaultCommand {
    /// Parses the tokens of one directive into the command they denote:
    /// `lookup` with exactly two arguments yields `Lookup { path, key }`;
    /// any other arity is an `Arguments` failure, any other name an
    /// `UnknownCommand` failure.
    pub fn parse(command_name: &str, args: &str) -> (r: Result<VaultCommand, Error>)
        ensures
            match spec_command_parse(command_name@, args@) {
                ParseOutcome::Parsed { command } => r matches Ok(c) && c@ == command,
                ParseOutcome::BadArity { name } => r matches Err(Error::Arguments(m)) && m@
                    == spec_arguments_message(name),
                ParseOutcome::Unknown { name } => r matches Err(Error::UnknownCommand(nm)) && nm@
                    == name,
            },
    {
        let extracted_args = extract_arguments(args);
        if str_eq(command_name, "lookup") {
            if extracted_args.len() != 2 {
                return Err(Error::Arguments(arguments_message(command_name)));
            }
            let path = extracted_args[0].clone();
            let key = extracted_args[1].clone();
            proof {
                assert(path@ == args_from(args@, 0)[0]);
                assert(key@ == args_from(args@, 0)[1]);
            }
            Ok(VaultCommand::Lookup { path, key })
        } else {
            Err(Error::UnknownCommand(String::from_str(command_name)))
        }
    }
}

impl ParsedCommand {
    /// Converts one located directive occurrence into a parsed command, or
    /// wraps the failure into the report the scan prints for that span.
    pub fn from(group_match: &DirectiveMatch) -> (r: Result<ParsedCommand, Error>)
        ensures
            match spec_command_parse(group_match.name@, group_match.args@) {
                ParseOutcome::Parsed { command } => r matches Ok(pc) && pc@ == (ParsedView {
                    raw: group_match.raw@,
                    command,
                }),
                o => r matches Err(Error::Parse(m)) && m@ == spec_wrap_message(
                    group_match.raw@,
                    spec_outcome_reason(o),
                ),
            },
    {
        match VaultCommand::parse(group_match.name.as_str(), group_match.args.as_str()) {
            Ok(vault_command) => Ok(
                ParsedCommand { regex_match: group_match.raw.clone(), command: vault_command },
            ),
            Err(err) => {
                let reason = err.message();
                let message = String::from_str("The `").concat(group_match.raw.as_str()).concat(
                    "` part can't be parsed properly. Reason: ",
                ).concat(reason.as_str());
                Err(Error::Parse(message))
            },
        }
    }

    /// Returns the full text of the directive occurrence.
    pub fn regex_match(&self) -> (r: &String)
        ensures
            r@ == self@.raw,
    {
        &self.regex_match
    }

    /// Returns the command this occurrence denotes.
    pub fn command(&self) -> (r: &VaultCommand)
        ensures
            r@ == self@.command,
    {
        &self.command
    }
}

fn command_eq(a: &VaultCommand, b: &VaultCommand) -> (r: bool)
    ensures
        r == (a@ == b@),
{
    match (a, b) {
        (
            VaultCommand::Lookup { path: pa, key: ka },
            VaultCommand::Lookup { path: pb, key: kb },
        ) => str_eq(pa.as_str(), pb.as_str()) && str_eq(ka.as_str(), kb.as_str()),
    }
}

fn parsed_eq(a: &ParsedCommand, b: &ParsedCommand) -> (r: bool)
    ensures
        r == (a@ == b@),
{
    str_eq(a.regex_match.as_str(), b.regex_match.as_str()) && command_eq(&a.command, &b.command)
}

fn contains_parsed(acc: &Vec<ParsedCommand>, pc: &ParsedCommand) -> (r: bool)
    ensures
        r == views_of(acc@).contains(pc@),
{
    let mut j: usize = 0;
    while j < acc.len()
        invariant
            j <= acc.len(),
            forall|t: int| 0 <= t < j ==> acc@[t]@ != pc@,
        decreases acc.len() - j,
    {
        if parsed_eq(&acc[j], pc) {
            proof {
                assert(views_of(acc@)[j as int] == pc@);
            }
            return true;
        }
        j = j + 1;
    }
    proof {
        if views_of(acc@).contains(pc@) {
            let t = choose|t: int|
                0 <= t < views_of(acc@).len() && views_of(acc@)[t] == pc@;
            assert(acc@[t]@ == pc@);
        }
    }
    false
}

impl VaultCommandParser {
    pub fn new() -> (r: Self) {
        VaultCommandParser
    }

    /// Scans `data` and returns the distinct well-formed commands in order
    /// of first appearance, with one report line for every directive
    /// occurrence that failed to parse.
    pub fn parse_with_failures(&self, data: &str) -> (r: (Vec<ParsedCommand>, Vec<String>))
        ensures
            views_of(r.0@) == spec_parse(data@),
            views_of(r.0@).no_duplicates(),
            string_views(r.1@) == failures(spans_from(data@, 0)),
    {
        let mut commands: Vec<ParsedCommand> = Vec::new();
        let mut fails: Vec<String> = Vec::new();
        let ghost total_s = successes(spans_from(data@, 0));
        let ghost total_f = failures(spans_from(data@, 0));
        let ghost mut done_s: Seq<ParsedView> = Seq::empty();
        let ghost mut done_f: Seq<Seq<char>> = Seq::empty();
        let mut i: usize = 0;
        let mut going: bool = true;
        proof {
            assert(views_of(commands@) =~= Seq::<ParsedView>::empty());
            assert(string_views(fails@) =~= Seq::<Seq<char>>::empty());
            assert(done_s + total_s =~= total_s);
            assert(done_f + total_f =~= total_f);
        }
        while going
            invariant
                i <= data@.len(),
                going ==> total_s == done_s + successes(spans_from(data@, i as int)),
                going ==> total_f == done_f + failures(spans_from(data@, i as int)),
                !going ==> total_s == done_s,
                !going ==> total_f == done_f,
                views_of(commands@) == dedup_views(done_s),
                string_views(fails@) == done_f,
            decreases data@.len() - i + (if going {
                1int
            } else {
                0int
            }),
        {
            match find_directive(data, i) {
                None => {
                    proof {
                        lemma_spans_from_find(data@, i as int);
                    }
                    going = false;
                },
                Some(dm) => {
                    let ghost m = dm.spec_span();
                    let ghost rest = spans_from(data@, imax(m.start + 1, m.end));
                    proof {
                        lemma_spans_from_find(data@, i as int);
                        assert(imax(m.start + 1, m.end) == m.end);
                        lemma_successes_cons(m, rest);
                    }
                    match ParsedCommand::from(&dm) {
                        Ok(command) => {
                            let ghost pv = command@;
                            let ghost old_done = done_s;
                            if !contains_parsed(&commands, &command) {
                                let ghost old_views = views_of(commands@);
                                commands.push(command);
                                proof {
                                    assert(views_of(commands@) =~= old_views.push(pv));
                                }
                            }
                            proof {
                                done_s = done_s.push(pv);
                                assert(done_s.drop_last() =~= old_done);
                                assert(done_s + successes(rest) =~= old_done + (
                                Seq::empty().push(pv) + successes(rest)));
                            }
                        },
                        Err(err) => {
                            let line = err.message();
                            let ghost old_done = done_f;
                            let ghost old_views = string_views(fails@);
                            fails.push(line);
                            proof {
                                done_f = done_f.push(string_views(fails@).last());
                                assert(string_views(fails@) =~= old_views.push(
                                    string_views(fails@).last(),
                                ));
                                assert(done_f + failures(rest) =~= old_done + (
                                Seq::empty().push(string_views(fails@).last()) + failures(
                                    rest,
                                )));
                            }
                        },
                    }
                    i = dm.end;
                },
            }
        }
        proof {
            lemma_dedup_no_duplicates(total_s);
        }
        (commands, fails)
    }

    /// Returns the set of commands that needs to be executed and replaced:
    /// the distinct well-formed directives of `data`, in order of first
    /// appearance. Failed occurrences are dropped.
    pub fn parse(&self, data: &str) -> (r: Vec<ParsedCommand>)
        ensures
            views_of(r@) == spec_parse(data@),
            views_of(r@).no_duplicates(),
    {
        let (commands, _fails) = self.parse_with_failures(data);
        commands
    }
}

/// A document whose well-formed directives are pairwise distinct parses to
/// exactly one command per directive: nothing is lost and nothing added.
pub proof fn lemma_distinct_directives_count(doc: Seq<char>)
    requires
        successes(spans_from(doc, 0)).no_duplicates(),
    ensures
        spec_parse(doc) == successes(spans_from(doc, 0)),
{
    lemma_dedup_of_distinct(successes(spans_from(doc, 0)));
}

/// A document whose directive spans all parse to the same command parses to
/// that single command, however many times the text repeats it.
pub proof fn lemma_repeated_directive_once(doc: Seq<char>, p: ParsedView)
    requires
        successes(spans_from(doc, 0)).len() > 0,
        forall|j: int|
            0 <= j < successes(spans_from(doc, 0)).len() ==> successes(spans_from(doc, 0))[j]
                == p,
    ensures
        spec_parse(doc) == Seq::empty().push(p),
        spec_parse(doc).len() == 1,
{
    lemma_dedup_of_repeated(successes(spans_from(doc, 0)), p);
}

/// A document with no directive-shaped text parses to nothing.
pub proof fn lemma_no_spans_parse_empty(doc: Seq<char>)
    requires
        forall|i: int| span_at(doc, i) is None,
    ensures
        spec_parse(doc) == Seq::<ParsedView>::empty(),
{
    lemma_all_spans_invalid_parse_empty(doc, 0);
    assert(successes(Seq::<DirectiveSpan>::empty()) =~= Seq::<ParsedView>::empty());
    assert(dedup_views(Seq::<ParsedView>::empty()) =~= Seq::<ParsedView>::empty());
}

proof fn lemma_all_spans_invalid_parse_empty(doc: Seq<char>, i: int)
    requires
        0 <= i,
        forall|j: int| span_at(doc, j) is None,
    ensures
        spans_from(doc, i) == Seq::<DirectiveSpan>::empty(),
    decreases doc.len() - i,
{
    if i < doc.len() {
        lemma_all_spans_invalid_parse_empty(doc, i + 1);
    }
}

} // verus!
