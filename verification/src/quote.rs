//! Quoting strategies: transform one line of text into a shell-safe word.
//!
//! Both strategies first escape every embedded single quote and finally wrap
//! the line in single quotes; the printable strategy additionally rewrites
//! backspace and newline control characters as ANSI-C escape sequences.

use vstd::prelude::*;
use vstd::string::*;

verus! {

/// The characters that stand for one input character once embedded single
/// quotes are escaped: `'` becomes the five-character sequence `'"'"'`
/// (close the quote, a double-quoted `'`, reopen the quote).
pub open spec fn escape_quote_char(c: char) -> Seq<char> {
    if c == '\'' {
        seq!['\'', '"', '\'', '"', '\'']
    } else {
        seq![c]
    }
}

/// A line with every embedded single quote escaped.
pub open spec fn escape_quotes(s: Seq<char>) -> Seq<char>
    decreases s.len(),
{
    if s.len() == 0 {
        Seq::empty()
    } else {
        escape_quote_char(s[0]) + escape_quotes(s.skip(1))
    }
}

proof fn lemma_escape_quotes_push(s: Seq<char>, c: char)
    ensures
        escape_quotes(s.push(c)) == escape_quotes(s) + escape_quote_char(c),
    decreases s.len(),
{
    if s.len() == 0 {
        assert(s.push(c)[0] == c);
        assert(s.push(c).skip(1) =~= Seq::<char>::empty());
        assert(escape_quotes(s.push(c).skip(1)) == Seq::<char>::empty());
        assert(escape_quotes(s.push(c)) == escape_quote_char(c) + Seq::<char>::empty());
        assert(escape_quotes(s.push(c)) =~= escape_quotes(s) + escape_quote_char(c));
    } else {
        assert(s.push(c)[0] == s[0]);
        assert(s.push(c).skip(1) =~= s.skip(1).push(c));
        lemma_escape_quotes_push(s.skip(1), c);
        assert(escape_quotes(s.push(c)) =~= escape_quotes(s) + escape_quote_char(c));
    }
}

/// Escape every embedded single quote in `line`.
fn escape_quotes_exec(line: &str) -> (r: String)
    ensures
        r@ == escape_quotes(line@),
{
    let n = line.unicode_len();
    let mut r = String::new();
    let mut i: usize = 0;
    while i < n
        invariant
            n == line@.len(),
            i <= n,
            r@ == escape_quotes(line@.take(i as int)),
        decreases n - i,
    {
        let c = line.get_char(i);
        if c == '\'' {
            r.append("'\"'\"'");
            proof {
                reveal_strlit("'\"'\"'");
            }
        } else {
            let piece = line.substring_char(i, i + 1);
            r.append(piece);
        }
        proof {
            assert(line@.take(i as int).push(line@[i as int]) =~= line@.take(i + 1 as int));
            lemma_escape_quotes_push(line@.take(i as int), line@[i as int]);
        }
        i = i + 1;
    }
    proof {
        assert(line@.take(n as int) =~= line@);
    }
    r
}

/// The characters that stand for one character under the printable strategy:
/// backspace and newline become ANSI-C escape sequences, wrapped so the
/// single-quoted blocks around them stay syntactically valid.
pub open spec fn printable_escape_char(c: char) -> Seq<char> {
    if c == '\u{8}' {
        seq!['\'', '$', '\'', '\\', 'b', '\'', '\'']
    } else if c == '\n' {
        seq!['\'', '$', '\'', '\\', 'n', '\'', '\'']
    } else {
        seq![c]
    }
}

/// A line with every backspace and newline rewritten as an ANSI-C escape.
pub open spec fn replace_printable(s: Seq<char>) -> Seq<char>
    decreases s.len(),
{
    if s.len() == 0 {
        Seq::empty()
    } else {
        printable_escape_char(s[0]) + replace_printable(s.skip(1))
    }
}

proof fn lemma_replace_printable_push(s: Seq<char>, c: char)
    ensures
        replace_printable(s.push(c)) == replace_printable(s) + printable_escape_char(c),
    decreases s.len(),
{
    if s.len() == 0 {
        assert(s.push(c)[0] == c);
        assert(s.push(c).skip(1) =~= Seq::<char>::empty());
        assert(replace_printable(s.push(c).skip(1)) == Seq::<char>::empty());
        assert(replace_printable(s.push(c)) == printable_escape_char(c) + Seq::<char>::empty());
        assert(replace_printable(s.push(c)) =~= replace_printable(s) + printable_escape_char(c));
    } else {
        assert(s.push(c)[0] == s[0]);
        assert(s.push(c).skip(1) =~= s.skip(1).push(c));
        lemma_replace_printable_push(s.skip(1), c);
        assert(replace_printable(s.push(c)) =~= replace_printable(s) + printable_escape_char(c));
    }
}

/// Rewrite every backspace and newline in `line` as an ANSI-C escape.
fn replace_printable_exec(line: &str) -> (r: String)
    ensures
        r@ == replace_printable(line@),
{
    let n = line.unicode_len();
    let mut r = String::new();
    let mut i: usize = 0;
    while i < n
        invariant
            n == line@.len(),
            i <= n,
            r@ == replace_printable(line@.take(i as int)),
        decreases n - i,
    {
        let c = line.get_char(i);
        if c == '\u{8}' {
            r.append("'$'\\b''");
            proof {
                reveal_strlit("'$'\\b''");
            }
        } else if c == '\n' {
            r.append("'$'\\n''");
            proof {
                reveal_strlit("'$'\\n''");
            }
        } else {
            let piece = line.substring_char(i, i + 1);
            r.append(piece);
        }
        proof {
            assert(line@.take(i as int).push(line@[i as int]) =~= line@.take(i + 1 as int));
            lemma_replace_printable_push(line@.take(i as int), line@[i as int]);
        }
        i = i + 1;
    }
    proof {
        assert(line@.take(n as int) =~= line@);
    }
    r
}

/// The shell-safe form of a line under the basic strategy: embedded single
/// quotes escaped, the whole line wrapped in single quotes.
pub open spec fn quote_basic_spec(s: Seq<char>) -> Seq<char> {
    seq!['\''] + escape_quotes(s) + seq!['\'']
}

/// The shell-safe form of a line under the printable strategy: embedded
/// single quotes escaped, backspace and newline rewritten, the whole line
/// wrapped in single quotes.
pub open spec fn quote_printable_spec(s: Seq<char>) -> Seq<char> {
    seq!['\''] + replace_printable(escape_quotes(s)) + seq!['\'']
}

/// A quoting strategy: a pure transformation from one line of text to its
/// shell-safe quoted form.
pub trait DoQuote: Sized {
    /// The strategy-specific rewriting applied between quote escaping and
    /// the final wrapping.
    spec fn replace_spec(&self, s: Seq<char>) -> Seq<char>;

    /// Escape every embedded single quote as `'"'"'`.
    fn wrap_single_quote(&self, line: String) -> (r: String)
        ensures
            r@ == escape_quotes(line@),
    ;

    /// Apply the strategy-specific rewriting.
    fn replace(&self, line: String) -> (r: String)
        ensures
            r@ == self.replace_spec(line@),
    ;

    /// Quote one line: escape single quotes, apply the strategy rewriting,
    /// and wrap the result in single quotes.
    fn quote(&self, line: String) -> (r: String)
        ensures
            r@ == seq!['\''] + self.replace_spec(escape_quotes(line@)) + seq!['\''],
    ;
}

/// The basic strategy: only single quotes are escaped; control characters
/// pass through unchanged.
pub struct QuoteBasic {}

impl DoQuote for QuoteBasic {
    open spec fn replace_spec(&self, s: Seq<char>) -> Seq<char> {
        s
    }

    fn wrap_single_quote(&self, line: String) -> (r: String) {
        escape_quotes_exec(line.as_str())
    }

    fn replace(&self, line: String) -> (r: String) {
        line
    }

    fn quote(&self, line: String) -> (r: String) {
        let inner = self.replace(self.wrap_single_quote(line));
        let mut r = String::from_str("'");
        r.append(inner.as_str());
        r.append("'");
        proof {
            reveal_strlit("'");
            assert(r@ =~= seq!['\''] + escape_quotes(line@) + seq!['\'']);
        }
        r
    }
}

/// The printable strategy: single quotes are escaped and backspace and
/// newline are additionally rewritten as ANSI-C escape sequences.
pub struct QuotePrintable {}

impl DoQuote for QuotePrintable {
    open spec fn replace_spec(&self, s: Seq<char>) -> Seq<char> {
        replace_printable(s)
    }

    fn wrap_single_quote(&self, line: String) -> (r: String) {
        escape_quotes_exec(line.as_str())
    }

    fn replace(&self, line: String) -> (r: String) {
        replace_printable_exec(line.as_str())
    }

    fn quote(&self, line: String) -> (r: String) {
        let inner = self.replace(self.wrap_single_quote(line));
        let mut r = String::from_str("'");
        r.append(inner.as_str());
        r.append("'");
        proof {
            reveal_strlit("'");
            assert(r@ =~= seq!['\''] + replace_printable(escape_quotes(line@)) + seq!['\'']);
        }
        r
    }
}

/// Every quoted line starts and ends with a single quote, under either
/// strategy.
pub proof fn lemma_quote_wrapped(s: Seq<char>, no_escape: bool)
    ensures
        ({
            let q = if no_escape {
                quote_basic_spec(s)
            } else {
                quote_printable_spec(s)
            };
            q.len() >= 2 && q[0] == '\'' && q[q.len() - 1] == '\''
        }),
{
}

/// How many times `c` occurs in `s`.
pub open spec fn count_char(s: Seq<char>, c: char) -> nat
    decreases s.len(),
{
    if s.len() == 0 {
        0
    } else {
        (if s[0] == c {
            1nat
        } else {
            0nat
        }) + count_char(s.skip(1), c)
    }
}

proof fn lemma_count_char_concat(a: Seq<char>, b: Seq<char>, c: char)
    ensures
        count_char(a + b, c) == count_char(a, c) + count_char(b, c),
    decreases a.len(),
{
    if a.len() == 0 {
        assert(a + b =~= b);
    } else {
        assert((a + b)[0] == a[0]);
        assert((a + b).skip(1) =~= a.skip(1) + b);
        lemma_count_char_concat(a.skip(1), b, c);
    }
}

/// The basic strategy alters nothing but single quotes: every other
/// character — control characters included — occurs in the quoted line
/// exactly as often as in the original.
pub proof fn lemma_basic_preserves_chars(s: Seq<char>, c: char)
    requires
        c != '\'',
        c != '"',
    ensures
        count_char(escape_quotes(s), c) == count_char(s, c),
        count_char(quote_basic_spec(s), c) == count_char(s, c),
    decreases s.len(),
{
    if s.len() == 0 {
        assert(count_char(escape_quotes(s), c) == 0);
    } else {
        lemma_basic_preserves_chars(s.skip(1), c);
        lemma_count_char_concat(escape_quote_char(s[0]), escape_quotes(s.skip(1)), c);
        assert(count_char(escape_quote_char(s[0]), c) == (if s[0] == c {
            1nat
        } else {
            0nat
        })) by {
            if s[0] == '\'' {
                assert(count_char(escape_quote_char(s[0]), c) == 0) by {
                    reveal_with_fuel(count_char, 7);
                    let e = escape_quote_char(s[0]);
                    assert(e.skip(1) =~= seq!['"', '\'', '"', '\'']);
                    assert(e.skip(1).skip(1) =~= seq!['\'', '"', '\'']);
                    assert(e.skip(1).skip(1).skip(1) =~= seq!['"', '\'']);
                    assert(e.skip(1).skip(1).skip(1).skip(1) =~= seq!['\'']);
                    assert(e.skip(1).skip(1).skip(1).skip(1).skip(1) =~= Seq::<char>::empty());
                }
            } else {
                assert(escape_quote_char(s[0]).skip(1) =~= Seq::<char>::empty());
                assert(count_char(escape_quote_char(s[0]), c) == (if s[0] == c {
                    1nat
                } else {
                    0nat
                })) by {
                    reveal_with_fuel(count_char, 3);
                    assert(escape_quote_char(s[0]).skip(1) =~= Seq::<char>::empty());
                }
            }
        }
    }
    lemma_count_char_concat(seq!['\''] + escape_quotes(s), seq!['\''], c);
    lemma_count_char_concat(seq!['\''], escape_quotes(s), c);
    assert(count_char(seq!['\''], c) == 0) by {
        reveal_with_fuel(count_char, 3);
        assert(seq!['\''].skip(1) =~= Seq::<char>::empty());
    }
    assert((seq!['\''] + escape_quotes(s)) + seq!['\''] =~= quote_basic_spec(s));
}

proof fn lemma_replace_printable_no_controls(t: Seq<char>)
    ensures
        forall|k: int| 0 <= k < replace_printable(t).len() ==> replace_printable(t)[k] != '\n'
            && replace_printable(t)[k] != '\u{8}',
    decreases t.len(),
{
    if t.len() > 0 {
        lemma_replace_printable_no_controls(t.skip(1));
        let img = printable_escape_char(t[0]);
        assert(forall|k: int| 0 <= k < img.len() ==> img[k] != '\n' && img[k] != '\u{8}');
        assert forall|k: int| 0 <= k < replace_printable(t).len() implies replace_printable(t)[k]
            != '\n' && replace_printable(t)[k] != '\u{8}' by {
            if k < img.len() {
                assert(replace_printable(t)[k] == img[k]);
            } else {
                assert(replace_printable(t)[k] == replace_printable(t.skip(1))[k - img.len()]);
            }
        }
    }
}

/// The printable strategy leaves no literal newline or backspace anywhere
/// in the quoted line: each is rewritten as an ANSI-C escape sequence.
pub proof fn lemma_printable_removes_controls(s: Seq<char>)
    ensures
        forall|k: int| 0 <= k < quote_printable_spec(s).len() ==> quote_printable_spec(s)[k]
            != '\n' && quote_printable_spec(s)[k] != '\u{8}',
{
    lemma_replace_printable_no_controls(escape_quotes(s));
    let inner = replace_printable(escape_quotes(s));
    let q = quote_printable_spec(s);
    assert forall|k: int| 0 <= k < q.len() implies q[k] != '\n' && q[k] != '\u{8}' by {
        if 1 <= k < q.len() - 1 {
            assert(q[k] == inner[k - 1]);
        }
    }
}

/// Escaping introduces no character beyond the quoting pair: a character
/// absent from the line, other than `'` and `"`, is absent from the escaped
/// line too.
pub proof fn lemma_escape_quotes_no_char(s: Seq<char>, c: char)
    requires
        c != '\'',
        c != '"',
        forall|i: int| 0 <= i < s.len() ==> s[i] != c,
    ensures
        forall|k: int| 0 <= k < escape_quotes(s).len() ==> escape_quotes(s)[k] != c,
    decreases s.len(),
{
    if s.len() > 0 {
        assert(forall|i: int| 0 <= i < s.skip(1).len() ==> s.skip(1)[i] != c);
        lemma_escape_quotes_no_char(s.skip(1), c);
        let img = escape_quote_char(s[0]);
        assert(forall|k: int| 0 <= k < img.len() ==> img[k] != c);
        assert forall|k: int| 0 <= k < escape_quotes(s).len() implies escape_quotes(s)[k] != c by {
            if k < img.len() {
                assert(escape_quotes(s)[k] == img[k]);
            } else {
                assert(escape_quotes(s)[k] == escape_quotes(s.skip(1))[k - img.len()]);
            }
        }
    }
}

/// The printable rewriting introduces no character beyond its escape
/// alphabet: a character absent from the line, other than `'`, `$`, `\`,
/// `b` and `n`, is absent from the rewritten line too.
pub proof fn lemma_replace_printable_no_char(t: Seq<char>, c: char)
    requires
        c != '\'',
        c != '$',
        c != '\\',
        c != 'b',
        c != 'n',
        forall|i: int| 0 <= i < t.len() ==> t[i] != c,
    ensures
        forall|k: int| 0 <= k < replace_printable(t).len() ==> replace_printable(t)[k] != c,
    decreases t.len(),
{
    if t.len() > 0 {
        assert(forall|i: int| 0 <= i < t.skip(1).len() ==> t.skip(1)[i] != c);
        lemma_replace_printable_no_char(t.skip(1), c);
        let img = printable_escape_char(t[0]);
        assert(forall|k: int| 0 <= k < img.len() ==> img[k] != c);
        assert forall|k: int| 0 <= k < replace_printable(t).len() implies replace_printable(t)[k]
            != c by {
            if k < img.len() {
                assert(replace_printable(t)[k] == img[k]);
            } else {
                assert(replace_printable(t)[k] == replace_printable(t.skip(1))[k - img.len()]);
            }
        }
    }
}

/// How a POSIX shell scans a word: outside any quotes, inside a
/// single-quoted block, or inside a double-quoted block.
pub enum ScanMode {
    Unquoted,
    InSingle,
    InDouble,
}

/// One scanning step.
pub open spec fn scan_step(m: ScanMode, c: char) -> ScanMode {
    match m {
        ScanMode::Unquoted => if c == '\'' {
            ScanMode::InSingle
        } else if c == '"' {
            ScanMode::InDouble
        } else {
            ScanMode::Unquoted
        },
        ScanMode::InSingle => if c == '\'' {
            ScanMode::Unquoted
        } else {
            ScanMode::InSingle
        },
        ScanMode::InDouble => if c == '"' {
            ScanMode::Unquoted
        } else {
            ScanMode::InDouble
        },
    }
}

/// The scanning mode after reading all of `s` from mode `m`.
pub open spec fn scan_mode(m: ScanMode, s: Seq<char>) -> ScanMode
    decreases s.len(),
{
    if s.len() == 0 {
        m
    } else {
        scan_mode(scan_step(m, s[0]), s.skip(1))
    }
}

/// The literal characters one scanning step contributes to the word.
pub open spec fn scan_keep(m: ScanMode, c: char) -> Seq<char> {
    match m {
        ScanMode::Unquoted => if c == '\'' || c == '"' {
            Seq::empty()
        } else {
            seq![c]
        },
        ScanMode::InSingle => if c == '\'' {
            Seq::empty()
        } else {
            seq![c]
        },
        ScanMode::InDouble => if c == '"' {
            Seq::empty()
        } else {
            seq![c]
        },
    }
}

/// The literal word a shell reads from `s`, starting in mode `m`.
pub open spec fn scan_text(m: ScanMode, s: Seq<char>) -> Seq<char>
    decreases s.len(),
{
    if s.len() == 0 {
        Seq::empty()
    } else {
        scan_keep(m, s[0]) + scan_text(scan_step(m, s[0]), s.skip(1))
    }
}

proof fn lemma_scan_cons(m: ScanMode, c: char, s: Seq<char>)
    ensures
        scan_mode(m, seq![c] + s) == scan_mode(scan_step(m, c), s),
        scan_text(m, seq![c] + s) == scan_keep(m, c) + scan_text(scan_step(m, c), s),
{
    assert((seq![c] + s)[0] == c);
    assert((seq![c] + s).skip(1) =~= s);
}

proof fn lemma_scan_one(m: ScanMode, c: char)
    ensures
        scan_mode(m, seq![c]) == scan_step(m, c),
        scan_text(m, seq![c]) == scan_keep(m, c),
{
    lemma_scan_cons(m, c, Seq::empty());
    assert(seq![c] + Seq::<char>::empty() =~= seq![c]);
    assert(scan_keep(m, c) + scan_text(scan_step(m, c), Seq::empty()) =~= scan_keep(m, c));
}

proof fn lemma_scan_concat(m: ScanMode, a: Seq<char>, b: Seq<char>)
    ensures
        scan_mode(m, a + b) == scan_mode(scan_mode(m, a), b),
        scan_text(m, a + b) == scan_text(m, a) + scan_text(scan_mode(m, a), b),
    decreases a.len(),
{
    if a.len() == 0 {
        assert(a + b =~= b);
        assert(scan_text(m, a) + scan_text(m, b) =~= scan_text(m, b));
    } else {
        assert((a + b)[0] == a[0]);
        assert((a + b).skip(1) =~= a.skip(1) + b);
        lemma_scan_concat(scan_step(m, a[0]), a.skip(1), b);
        assert(scan_keep(m, a[0]) + (scan_text(scan_step(m, a[0]), a.skip(1)) + scan_text(
            scan_mode(m, a),
            b,
        )) =~= (scan_keep(m, a[0]) + scan_text(scan_step(m, a[0]), a.skip(1))) + scan_text(
            scan_mode(m, a),
            b,
        ));
    }
}

proof fn lemma_scan_quote_escape(x: Seq<char>)
    ensures
        scan_mode(ScanMode::InSingle, seq!['\'', '"', '\'', '"', '\''] + x) == scan_mode(
            ScanMode::InSingle,
            x,
        ),
        scan_text(ScanMode::InSingle, seq!['\'', '"', '\'', '"', '\''] + x) == seq!['\'']
            + scan_text(ScanMode::InSingle, x),
{
    let t4 = seq!['\''] + x;
    let t3 = seq!['"'] + t4;
    let t2 = seq!['\''] + t3;
    let t1 = seq!['"'] + t2;
    let t0 = seq!['\''] + t1;
    assert(seq!['\'', '"', '\'', '"', '\''] + x =~= t0);
    lemma_scan_cons(ScanMode::InSingle, '\'', t1);
    lemma_scan_cons(ScanMode::Unquoted, '"', t2);
    lemma_scan_cons(ScanMode::InDouble, '\'', t3);
    lemma_scan_cons(ScanMode::InDouble, '"', t4);
    lemma_scan_cons(ScanMode::Unquoted, '\'', x);
    assert(scan_text(ScanMode::InSingle, t0) =~= seq!['\''] + scan_text(ScanMode::InSingle, x));
}

/// Scanned from inside a single-quoted block, an escaped line keeps the
/// scanner inside that block and reads back as exactly the original line.
proof fn lemma_escape_scan(s: Seq<char>)
    ensures
        scan_mode(ScanMode::InSingle, escape_quotes(s)) == ScanMode::InSingle,
        scan_text(ScanMode::InSingle, escape_quotes(s)) == s,
    decreases s.len(),
{
    if s.len() == 0 {
        assert(scan_text(ScanMode::InSingle, escape_quotes(s)) =~= s);
    } else {
        lemma_escape_scan(s.skip(1));
        let rest = escape_quotes(s.skip(1));
        if s[0] == '\'' {
            assert(escape_quotes(s) =~= seq!['\'', '"', '\'', '"', '\''] + rest);
            lemma_scan_quote_escape(rest);
            assert(scan_text(ScanMode::InSingle, escape_quotes(s)) =~= seq![s[0]] + s.skip(1));
            assert(seq![s[0]] + s.skip(1) =~= s);
        } else {
            assert(escape_quotes(s) =~= seq![s[0]] + rest);
            lemma_scan_cons(ScanMode::InSingle, s[0], rest);
            assert(scan_text(ScanMode::InSingle, escape_quotes(s)) =~= seq![s[0]] + s.skip(1));
            assert(seq![s[0]] + s.skip(1) =~= s);
        }
    }
}

/// Shell-safety of the basic strategy: the quoted line scans from outside
/// to outside — its quotes are balanced, and no quote of the line leaks
/// into the quoting structure — and the shell reads back exactly the
/// original line.
pub proof fn lemma_basic_quote_scan(s: Seq<char>)
    ensures
        scan_mode(ScanMode::Unquoted, quote_basic_spec(s)) == ScanMode::Unquoted,
        scan_text(ScanMode::Unquoted, quote_basic_spec(s)) == s,
{
    lemma_escape_scan(s);
    let inner = escape_quotes(s);
    let after = inner + seq!['\''];
    assert(quote_basic_spec(s) =~= seq!['\''] + after);
    lemma_scan_cons(ScanMode::Unquoted, '\'', after);
    lemma_scan_concat(ScanMode::InSingle, inner, seq!['\'']);
    lemma_scan_one(ScanMode::InSingle, '\'');
    assert(scan_text(ScanMode::Unquoted, quote_basic_spec(s)) =~= s);
}

proof fn lemma_replace_printable_concat(a: Seq<char>, b: Seq<char>)
    ensures
        replace_printable(a + b) == replace_printable(a) + replace_printable(b),
    decreases a.len(),
{
    if a.len() == 0 {
        assert(a + b =~= b);
        assert(replace_printable(a) + replace_printable(b) =~= replace_printable(b));
    } else {
        assert((a + b)[0] == a[0]);
        assert((a + b).skip(1) =~= a.skip(1) + b);
        lemma_replace_printable_concat(a.skip(1), b);
        assert(printable_escape_char(a[0]) + (replace_printable(a.skip(1)) + replace_printable(b))
            =~= (printable_escape_char(a[0]) + replace_printable(a.skip(1))) + replace_printable(
            b,
        ));
    }
}

proof fn lemma_scan_ansi_escape(esc: char, x: Seq<char>)
    requires
        esc == 'b' || esc == 'n',
    ensures
        scan_mode(ScanMode::InSingle, seq!['\'', '$', '\'', '\\', esc, '\'', '\''] + x)
            == scan_mode(ScanMode::InSingle, x),
        scan_text(ScanMode::InSingle, seq!['\'', '$', '\'', '\\', esc, '\'', '\''] + x)
            == seq!['$', '\\', esc] + scan_text(ScanMode::InSingle, x),
{
    let t6 = seq!['\''] + x;
    let t5 = seq!['\''] + t6;
    let t4 = seq![esc] + t5;
    let t3 = seq!['\\'] + t4;
    let t2 = seq!['\''] + t3;
    let t1 = seq!['$'] + t2;
    let t0 = seq!['\''] + t1;
    assert(seq!['\'', '$', '\'', '\\', esc, '\'', '\''] + x =~= t0);
    lemma_scan_cons(ScanMode::InSingle, '\'', t1);
    lemma_scan_cons(ScanMode::Unquoted, '$', t2);
    lemma_scan_cons(ScanMode::Unquoted, '\'', t3);
    lemma_scan_cons(ScanMode::InSingle, '\\', t4);
    lemma_scan_cons(ScanMode::InSingle, esc, t5);
    lemma_scan_cons(ScanMode::InSingle, '\'', t6);
    lemma_scan_cons(ScanMode::Unquoted, '\'', x);
    assert(scan_text(ScanMode::InSingle, t0) =~= seq!['$', '\\', esc] + scan_text(
        ScanMode::InSingle,
        x,
    ));
}

/// How one character of the line looks to the shell after printable
/// quoting: backspace and newline appear spelled as their ANSI-C escapes.
pub open spec fn ansi_rendered_char(c: char) -> Seq<char> {
    if c == '\u{8}' {
        seq!['$', '\\', 'b']
    } else if c == '\n' {
        seq!['$', '\\', 'n']
    } else {
        seq![c]
    }
}

/// The line as the shell reads it back from printable quoting, before the
/// shell evaluates the ANSI-C escapes.
pub open spec fn ansi_rendered(s: Seq<char>) -> Seq<char>
    decreases s.len(),
{
    if s.len() == 0 {
        Seq::empty()
    } else {
        ansi_rendered_char(s[0]) + ansi_rendered(s.skip(1))
    }
}

/// Scanned from inside a single-quoted block, the printable rewriting of an
/// escaped line keeps the scanner inside that block, and reads back as the
/// line with its control characters spelled as ANSI-C escapes.
proof fn lemma_printable_inner_scan(s: Seq<char>)
    ensures
        scan_mode(ScanMode::InSingle, replace_printable(escape_quotes(s))) == ScanMode::InSingle,
        scan_text(ScanMode::InSingle, replace_printable(escape_quotes(s))) == ansi_rendered(s),
    decreases s.len(),
{
    if s.len() == 0 {
        assert(escape_quotes(s) == Seq::<char>::empty());
        assert(replace_printable(escape_quotes(s)).len() == 0);
        assert(scan_text(ScanMode::InSingle, replace_printable(escape_quotes(s))) =~= ansi_rendered(
            s,
        ));
    } else {
        lemma_printable_inner_scan(s.skip(1));
        let rest = escape_quotes(s.skip(1));
        assert(escape_quotes(s) == escape_quote_char(s[0]) + rest);
        lemma_replace_printable_concat(escape_quote_char(s[0]), rest);
        let rp_img = replace_printable(escape_quote_char(s[0]));
        let rp_rest = replace_printable(rest);
        assert(replace_printable(escape_quotes(s)) == rp_img + rp_rest);
        if s[0] == '\'' {
            // the five escape characters pass through the printable rewriting
            assert(rp_img =~= seq!['\'', '"', '\'', '"', '\'']) by {
                reveal_with_fuel(replace_printable, 7);
                let e = escape_quote_char(s[0]);
                assert(e.skip(1) =~= seq!['"', '\'', '"', '\'']);
                assert(e.skip(1).skip(1) =~= seq!['\'', '"', '\'']);
                assert(e.skip(1).skip(1).skip(1) =~= seq!['"', '\'']);
                assert(e.skip(1).skip(1).skip(1).skip(1) =~= seq!['\'']);
                assert(e.skip(1).skip(1).skip(1).skip(1).skip(1) =~= Seq::<char>::empty());
            }
            lemma_scan_quote_escape(rp_rest);
            assert(rp_img + rp_rest == seq!['\'', '"', '\'', '"', '\''] + rp_rest);
            assert(scan_text(ScanMode::InSingle, replace_printable(escape_quotes(s)))
                =~= ansi_rendered(s));
        } else {
            assert(rp_img =~= printable_escape_char(s[0])) by {
                reveal_with_fuel(replace_printable, 3);
                assert(escape_quote_char(s[0]) =~= seq![s[0]]);
                assert(seq![s[0]].skip(1) =~= Seq::<char>::empty());
            }
            if s[0] == '\u{8}' || s[0] == '\n' {
                let esc: char = if s[0] == '\u{8}' {
                    'b'
                } else {
                    'n'
                };
                assert(rp_img == seq!['\'', '$', '\'', '\\', esc, '\'', '\'']);
                lemma_scan_ansi_escape(esc, rp_rest);
                assert(scan_text(ScanMode::InSingle, replace_printable(escape_quotes(s)))
                    =~= ansi_rendered(s));
            } else {
                assert(rp_img == seq![s[0]]);
                lemma_scan_cons(ScanMode::InSingle, s[0], rp_rest);
                assert(scan_text(ScanMode::InSingle, replace_printable(escape_quotes(s)))
                    =~= ansi_rendered(s));
            }
        }
    }
}

/// Shell-safety of the printable strategy: the quoted line scans from
/// outside to outside — concatenating quoted lines never disturbs the
/// surrounding quote structure — and the shell reads back the line with
/// each backspace and newline spelled as its ANSI-C escape.
pub proof fn lemma_printable_quote_scan(s: Seq<char>)
    ensures
        scan_mode(ScanMode::Unquoted, quote_printable_spec(s)) == ScanMode::Unquoted,
        scan_text(ScanMode::Unquoted, quote_printable_spec(s)) == ansi_rendered(s),
{
    lemma_printable_inner_scan(s);
    let inner = replace_printable(escape_quotes(s));
    let after = inner + seq!['\''];
    assert(quote_printable_spec(s) =~= seq!['\''] + after);
    lemma_scan_cons(ScanMode::Unquoted, '\'', after);
    lemma_scan_concat(ScanMode::InSingle, inner, seq!['\'']);
    lemma_scan_one(ScanMode::InSingle, '\'');
    assert(scan_text(ScanMode::Unquoted, quote_printable_spec(s)) =~= ansi_rendered(s));
}

} // verus!
