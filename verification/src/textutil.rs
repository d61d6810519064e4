//! Character and string utilities: decimal rendering, the positional-number
//! syntax, text normalization, and filename sanitization.

use vstd::prelude::*;

verus! {

/// Relies on `String::push`: appends exactly the one character.
#[verifier::external_body]
pub(crate) fn push_char(s: &mut String, c: char)
    ensures
        final(s)@ == old(s)@.push(c),
{
    s.push(c);
}

/// The characters of `s`, as a vector.
pub(crate) fn chars_of(s: &str) -> (r: Vec<char>)
    ensures
        r@ == s@,
{
    let n = s.unicode_len();
    let mut out: Vec<char> = Vec::new();
    let mut i: usize = 0;
    while i < n
        invariant
            i <= n,
            n == s@.len(),
            out@ == s@.take(i as int),
        decreases n - i,
    {
        out.push(s.get_char(i));
        proof {
            assert(s@.take(i as int + 1) =~= s@.take(i as int).push(s@[i as int]));
        }
        i = i + 1;
    }
    proof {
        assert(s@.take(n as int) =~= s@);
    }
    out
}

/// A string holding exactly the characters of `cs`.
pub(crate) fn string_from_chars(cs: &Vec<char>) -> (r: String)
    ensures
        r@ == cs@,
{
    let mut out = String::new();
    let n = cs.len();
    let mut i: usize = 0;
    while i < n
        invariant
            i <= n,
            n == cs@.len(),
            out@ == cs@.take(i as int),
        decreases n - i,
    {
        push_char(&mut out, cs[i]);
        proof {
            assert(cs@.take(i as int + 1) =~= cs@.take(i as int).push(cs@[i as int]));
        }
        i = i + 1;
    }
    proof {
        assert(cs@.take(n as int) =~= cs@);
    }
    out
}

/// Whether the two strings hold the same characters.
pub(crate) fn str_eq(a: &str, b: &str) -> (r: bool)
    ensures
        r == (a@ == b@),
{
    let na = a.unicode_len();
    let nb = b.unicode_len();
    if na != nb {
        proof {
            assert(a@ != b@) by {
                assert(a@.len() != b@.len());
            }
        }
        return false;
    }
    let mut i: usize = 0;
    while i < na
        invariant
            i <= na,
            na == a@.len(),
            na == b@.len(),
            forall|j: int| 0 <= j < i ==> a@[j] == b@[j],
        decreases na - i,
    {
        if a.get_char(i) != b.get_char(i) {
            return false;
        }
        i = i + 1;
    }
    proof {
        assert(a@ =~= b@);
    }
    true
}

/// Whether `s` begins with the characters of `prefix`.
pub(crate) fn str_starts_with(s: &str, prefix: &str) -> (r: bool)
    ensures
        r == (prefix@.len() <= s@.len() && s@.take(prefix@.len() as int) == prefix@),
{
    let np = prefix.unicode_len();
    let ns = s.unicode_len();
    if np > ns {
        return false;
    }
    let mut i: usize = 0;
    while i < np
        invariant
            i <= np,
            np == prefix@.len(),
            ns == s@.len(),
            np <= ns,
            forall|j: int| 0 <= j < i ==> s@[j] == prefix@[j],
        decreases np - i,
    {
        if s.get_char(i) != prefix.get_char(i) {
            proof {
                assert(s@.take(np as int)[i as int] != prefix@[i as int]);
            }
            return false;
        }
        i = i + 1;
    }
    proof {
        assert(s@.take(np as int) =~= prefix@);
    }
    true
}

/// Decimal digit characters.
pub open spec fn is_digit(c: char) -> bool {
    '0' <= c && c <= '9'
}

pub(crate) fn digit_exec(c: char) -> (r: bool)
    ensures
        r == is_digit(c),
{
    '0' <= c && c <= '9'
}

/// The decimal digit character for one value below ten.
pub open spec fn digit_char(d: nat) -> char {
    if d == 0 {
        '0'
    } else if d == 1 {
        '1'
    } else if d == 2 {
        '2'
    } else if d == 3 {
        '3'
    } else if d == 4 {
        '4'
    } else if d == 5 {
        '5'
    } else if d == 6 {
        '6'
    } else if d == 7 {
        '7'
    } else if d == 8 {
        '8'
    } else {
        '9'
    }
}

/// The usual decimal rendering of a number, without sign or padding.
pub open spec fn dec_rep(n: nat) -> Seq<char>
    decreases n,
{
    if n < 10 {
        seq![digit_char(n)]
    } else {
        dec_rep(n / 10) + seq![digit_char(n % 10)]
    }
}

fn digit_char_exec(d: u64) -> (r: char)
    requires
        d < 10,
    ensures
        r == digit_char(d as nat),
{
    if d == 0 {
        '0'
    } else if d == 1 {
        '1'
    } else if d == 2 {
        '2'
    } else if d == 3 {
        '3'
    } else if d == 4 {
        '4'
    } else if d == 5 {
        '5'
    } else if d == 6 {
        '6'
    } else if d == 7 {
        '7'
    } else if d == 8 {
        '8'
    } else {
        '9'
    }
}

/// Render a number in decimal.
pub fn format_u64(n: u64) -> (r: String)
    ensures
        r@ == dec_rep(n as nat),
    decreases n,
{
    if n < 10 {
        let mut s = String::new();
        push_char(&mut s, digit_char_exec(n));
        proof {
            assert(Seq::<char>::empty().push(digit_char(n as nat)) =~= seq![
                digit_char(n as nat),
            ]);
        }
        s
    } else {
        let mut s = format_u64(n / 10);
        push_char(&mut s, digit_char_exec(n % 10));
        proof {
            assert(dec_rep((n / 10) as nat).push(digit_char((n % 10) as nat)) =~= dec_rep(
                (n / 10) as nat,
            ) + seq![digit_char((n % 10) as nat)]);
        }
        s
    }
}

/// The positional-number syntax: non-empty, hyphen-delimited, and every
/// hyphen-separated segment non-empty and all-decimal-digit. Stated directly
/// over the characters: digits and hyphens only, no hyphen at either end and
/// no two in a row.
pub open spec fn hierarchical_id_syntax(s: Seq<char>) -> bool {
    &&& s.len() > 0
    &&& (forall|i: int| 0 <= i < s.len() ==> (is_digit(#[trigger] s[i]) || s[i] == '-'))
    &&& s[0] != '-'
    &&& s[s.len() - 1] != '-'
    &&& (forall|i: int| 0 <= i < s.len() - 1 ==> !(#[trigger] s[i] == '-' && s[i + 1] == '-'))
}

/// Whether `s` is a positional number such as `1`, `2-3` or `1-2-1`. Opaque
/// identifiers and free text never match: they contain other characters.
pub fn is_hierarchical_id(s: &str) -> (r: bool)
    ensures
        r == hierarchical_id_syntax(s@),
{
    let n = s.unicode_len();
    if n == 0 {
        return false;
    }
    if s.get_char(0) == '-' {
        return false;
    }
    if s.get_char(n - 1) == '-' {
        return false;
    }
    let mut i: usize = 0;
    while i < n
        invariant
            i <= n,
            n == s@.len(),
            n > 0,
            s@[0] != '-',
            s@[n - 1] != '-',
            forall|j: int| 0 <= j < i ==> (is_digit(#[trigger] s@[j]) || s@[j] == '-'),
            forall|j: int| 0 <= j < i - 1 ==> !(#[trigger] s@[j] == '-' && s@[j + 1] == '-'),
        decreases n - i,
    {
        let c = s.get_char(i);
        if !(digit_exec(c) || c == '-') {
            return false;
        }
        if i > 0 && c == '-' && s.get_char(i - 1) == '-' {
            return false;
        }
        i = i + 1;
    }
    true
}

/// Characters acceptable in an exported filename.
pub open spec fn filename_char(c: char) -> bool {
    ||| ('a' <= c && c <= 'z')
    ||| ('A' <= c && c <= 'Z')
    ||| is_digit(c)
    ||| c == '-'
    ||| c == '_'
    ||| c == '.'
    ||| c == '('
    ||| c == ')'
}

fn filename_char_exec(c: char) -> (r: bool)
    ensures
        r == filename_char(c),
{
    ('a' <= c && c <= 'z') || ('A' <= c && c <= 'Z') || digit_exec(c) || c == '-' || c == '_'
        || c == '.' || c == '(' || c == ')'
}

/// Characters acceptable in a collection slug.
pub open spec fn slug_char(c: char) -> bool {
    ||| ('a' <= c && c <= 'z')
    ||| ('A' <= c && c <= 'Z')
    ||| is_digit(c)
    ||| c == '-'
    ||| c == '_'
}

/// A slug is usable as a safe filename stem: non-empty, ASCII alphanumerics,
/// hyphens and underscores only.
pub fn validate_slug(slug: &str) -> (r: bool)
    ensures
        r == (slug@.len() > 0 && (forall|i: int|
            0 <= i < slug@.len() ==> slug_char(#[trigger] slug@[i]))),
{
    let n = slug.unicode_len();
    if n == 0 {
        return false;
    }
    let mut i: usize = 0;
    while i < n
        invariant
            i <= n,
            n == slug@.len(),
            forall|j: int| 0 <= j < i ==> slug_char(#[trigger] slug@[j]),
        decreases n - i,
    {
        let c = slug.get_char(i);
        if !(('a' <= c && c <= 'z') || ('A' <= c && c <= 'Z') || digit_exec(c) || c == '-' || c
            == '_') {
            return false;
        }
        i = i + 1;
    }
    true
}

/// One left-to-right pass replacing each literal backslash-n pair with a
/// newline character.
pub open spec fn unescaped(s: Seq<char>) -> Seq<char>
    decreases s.len(),
{
    if s.len() >= 2 && s[0] == '\\' && s[1] == 'n' {
        seq!['\n'] + unescaped(s.skip(2))
    } else if s.len() == 0 {
        Seq::empty()
    } else {
        seq![s[0]] + unescaped(s.skip(1))
    }
}

/// Turn literal `\n` pairs in transported text into real newlines.
pub fn unescape_newlines(s: &str) -> (r: String)
    ensures
        r@ == unescaped(s@),
{
    let n = s.unicode_len();
    let mut out = String::new();
    let mut i: usize = 0;
    proof {
        assert(s@.skip(0) =~= s@);
        assert(out@ + unescaped(s@) =~= unescaped(s@));
    }
    while i < n
        invariant
            i <= n,
            n == s@.len(),
            unescaped(s@) == out@ + unescaped(s@.skip(i as int)),
        decreases n - i,
    {
        let c = s.get_char(i);
        if c == '\\' && i + 1 < n && s.get_char(i + 1) == 'n' {
            proof {
                let t = s@.skip(i as int);
                assert(t[0] == '\\' && t[1] == 'n');
                assert(t.skip(2) =~= s@.skip(i as int + 2));
                assert(out@ + (seq!['\n'] + unescaped(t.skip(2))) =~= out@.push('\n') + unescaped(
                    s@.skip(i as int + 2),
                ));
            }
            push_char(&mut out, '\n');
            i = i + 2;
        } else {
            proof {
                let t = s@.skip(i as int);
                assert(t[0] == s@[i as int]);
                assert(!(t.len() >= 2 && t[0] == '\\' && t[1] == 'n')) by {
                    if i + 1 < n {
                        assert(t[1] == s@[i as int + 1]);
                    }
                }
                assert(t.skip(1) =~= s@.skip(i as int + 1));
                assert(out@ + (seq![t[0]] + unescaped(t.skip(1))) =~= out@.push(s@[i as int])
                    + unescaped(s@.skip(i as int + 1)));
            }
            push_char(&mut out, c);
            i = i + 1;
        }
    }
    proof {
        assert(s@.skip(n as int) =~= Seq::<char>::empty());
        assert(out@ + Seq::<char>::empty() =~= out@);
    }
    out
}

/// `unescape_newlines` over an optional text.
pub fn normalize_text(s: Option<String>) -> (r: Option<String>)
    ensures
        match s {
            Some(v) => r matches Some(u) && u@ == unescaped(v@),
            None => r is None,
        },
{
    match s {
        Some(v) => Some(unescape_newlines(v.as_str())),
        None => None,
    }
}

/// Every character that is not acceptable in a filename becomes an
/// underscore.
pub open spec fn underscored(s: Seq<char>) -> Seq<char> {
    s.map_values(
        |c: char|
            if filename_char(c) {
                c
            } else {
                '_'
            },
    )
}

/// Collapse runs of underscores to one; with `prev` set, an initial run is
/// dropped entirely.
pub open spec fn collapsed(s: Seq<char>, prev: bool) -> Seq<char>
    decreases s.len(),
{
    if s.len() == 0 {
        Seq::empty()
    } else if s[0] == '_' {
        if prev {
            collapsed(s.skip(1), true)
        } else {
            seq!['_'] + collapsed(s.skip(1), true)
        }
    } else {
        seq![s[0]] + collapsed(s.skip(1), false)
    }
}

/// Drop every trailing underscore.
pub open spec fn strip_trailing(s: Seq<char>) -> Seq<char>
    decreases s.len(),
{
    if s.len() > 0 && s[s.len() - 1] == '_' {
        strip_trailing(s.drop_last())
    } else {
        s
    }
}

/// One left-to-right pass replacing each non-overlapping `..` pair with an
/// underscore.
pub open spec fn dotdot_pass(s: Seq<char>) -> Seq<char>
    decreases s.len(),
{
    if s.len() >= 2 && s[0] == '.' && s[1] == '.' {
        seq!['_'] + dotdot_pass(s.skip(2))
    } else if s.len() == 0 {
        Seq::empty()
    } else {
        seq![s[0]] + dotdot_pass(s.skip(1))
    }
}

pub open spec fn has_dotdot(s: Seq<char>) -> bool {
    exists|i: int| 0 <= i < s.len() - 1 && #[trigger] s[i] == '.' && s[i + 1] == '.'
}

/// Repeat `dotdot_pass` until no `..` remains. Each pass shortens the text,
/// which bounds the recursion; the inner guard records that.
pub open spec fn dotdot_fix(s: Seq<char>) -> Seq<char>
    decreases s.len(),
{
    if has_dotdot(s) {
        if dotdot_pass(s).len() < s.len() {
            dotdot_fix(dotdot_pass(s))
        } else {
            s
        }
    } else {
        s
    }
}

/// A pass never lengthens the text.
proof fn lemma_dotdot_pass_len(s: Seq<char>)
    ensures
        dotdot_pass(s).len() <= s.len(),
        has_dotdot(s) ==> dotdot_pass(s).len() < s.len(),
    decreases s.len(),
{
    if s.len() >= 2 && s[0] == '.' && s[1] == '.' {
        lemma_dotdot_pass_len(s.skip(2));
    } else if s.len() == 0 {
    } else {
        lemma_dotdot_pass_len(s.skip(1));
        if has_dotdot(s) {
            let i = choose|i: int| 0 <= i < s.len() - 1 && #[trigger] s[i] == '.' && s[i + 1]
                == '.';
            assert(i >= 1);
            assert(s.skip(1)[i - 1] == '.' && s.skip(1)[i] == '.');
            assert(has_dotdot(s.skip(1)));
        }
    }
}

/// The sanitized form of a title, safe to use as a filename stem: disallowed
/// characters become underscores, runs of underscores collapse, leading and
/// trailing underscores go, `..` pairs are rewritten until none remain, and
/// an empty result falls back to a fixed stem.
pub open spec fn sanitized(title: Seq<char>) -> Seq<char> {
    let cleaned = dotdot_fix(strip_trailing(collapsed(underscored(title), true)));
    if cleaned.len() == 0 {
        "untitled"@
    } else {
        cleaned
    }
}

/// Make a title safe for use as a filename stem.
pub fn sanitize_for_filename(title: &str) -> (r: String)
    ensures
        r@ == sanitized(title@),
{
    let cs = chars_of(title);
    let n = cs.len();
    // replace disallowed characters
    let mut mapped: Vec<char> = Vec::new();
    let mut i: usize = 0;
    while i < n
        invariant
            i <= n,
            n == cs@.len(),
            cs@ == title@,
            mapped@ == underscored(title@.take(i as int)),
        decreases n - i,
    {
        let c = cs[i];
        if filename_char_exec(c) {
            mapped.push(c);
        } else {
            mapped.push('_');
        }
        proof {
            assert(underscored(title@.take(i as int + 1)) =~= underscored(
                title@.take(i as int),
            ).push(
                if filename_char(title@[i as int]) {
                    title@[i as int]
                } else {
                    '_'
                },
            ));
        }
        i = i + 1;
    }
    proof {
        assert(title@.take(n as int) =~= title@);
    }
    // collapse runs of underscores, dropping any leading run
    let m = mapped.len();
    let ghost ms = mapped@;
    let mut collapsed_v: Vec<char> = Vec::new();
    let mut prev_underscore = true;
    i = 0;
    proof {
        assert(ms.skip(0) =~= ms);
        assert(collapsed_v@ + collapsed(ms, true) =~= collapsed(ms, true));
    }
    while i < m
        invariant
            i <= m,
            m == ms.len(),
            mapped@ == ms,
            collapsed(ms, true) == collapsed_v@ + collapsed(
                ms.skip(i as int),
                prev_underscore,
            ),
        decreases m - i,
    {
        let c = mapped[i];
        proof {
            let t = ms.skip(i as int);
            assert(t[0] == ms[i as int]);
            assert(t.skip(1) =~= ms.skip(i as int + 1));
        }
        if c == '_' {
            if !prev_underscore {
                collapsed_v.push('_');
            }
            proof {
                let t = ms.skip(i as int);
                if prev_underscore {
                    assert(collapsed_v@ + collapsed(t, true) == collapsed_v@ + collapsed(
                        t.skip(1),
                        true,
                    ));
                } else {
                    assert(collapsed_v@ + (seq!['_'] + collapsed(t.skip(1), true))
                        =~= collapsed_v@.push('_') + collapsed(t.skip(1), true));
                }
            }
            prev_underscore = true;
        } else {
            proof {
                let t = ms.skip(i as int);
                assert(collapsed_v@ + (seq![t[0]] + collapsed(t.skip(1), false))
                    =~= collapsed_v@.push(ms[i as int]) + collapsed(t.skip(1), false));
            }
            collapsed_v.push(c);
            prev_underscore = false;
        }
        i = i + 1;
    }
    proof {
        assert(ms.skip(m as int) =~= Seq::<char>::empty());
        assert(collapsed(Seq::<char>::empty(), prev_underscore) == Seq::<char>::empty());
        assert(collapsed_v@ + Seq::<char>::empty() =~= collapsed_v@);
    }
    // strip trailing underscores
    let ghost cv0 = collapsed_v@;
    loop
        invariant
            strip_trailing(cv0) == strip_trailing(collapsed_v@),
        ensures
            strip_trailing(cv0) == collapsed_v@,
        decreases collapsed_v@.len(),
    {
        let len = collapsed_v.len();
        if len == 0 {
            proof {
                assert(strip_trailing(collapsed_v@) == collapsed_v@);
            }
            break ;
        }
        if collapsed_v[len - 1] != '_' {
            proof {
                assert(strip_trailing(collapsed_v@) == collapsed_v@);
            }
            break ;
        }
        let ghost before = collapsed_v@;
        collapsed_v.pop();
        proof {
            assert(collapsed_v@ =~= before.drop_last());
            assert(strip_trailing(before) == strip_trailing(before.drop_last()));
        }
    }
    // rewrite `..` pairs until none remain
    let ghost sv0 = collapsed_v@;
    let mut current = collapsed_v;
    loop
        invariant
            dotdot_fix(sv0) == dotdot_fix(current@),
        ensures
            dotdot_fix(sv0) == current@,
        decreases current@.len(),
    {
        if !has_dotdot_exec(&current) {
            proof {
                assert(dotdot_fix(current@) == current@);
            }
            break ;
        }
        proof {
            lemma_dotdot_pass_len(current@);
        }
        current = dotdot_pass_exec(&current);
    }
    proof {
        assert(current@ == dotdot_fix(strip_trailing(collapsed(underscored(title@), true))));
    }
    // an empty result falls back to a fixed stem
    if current.len() == 0 {
        let fallback = String::from_str("untitled");
        return fallback;
    }
    string_from_chars(&current)
}

/// Whether the characters contain an adjacent `..` pair.
fn has_dotdot_exec(cs: &Vec<char>) -> (r: bool)
    ensures
        r == has_dotdot(cs@),
{
    let n = cs.len();
    if n < 2 {
        return false;
    }
    let mut i: usize = 0;
    while i < n - 1
        invariant
            i <= n - 1,
            n == cs@.len(),
            n >= 2,
            forall|j: int| 0 <= j < i ==> !(#[trigger] cs@[j] == '.' && cs@[j + 1] == '.'),
        decreases n - i,
    {
        if cs[i] == '.' && cs[i + 1] == '.' {
            return true;
        }
        i = i + 1;
    }
    false
}

/// One left-to-right pass of the `..` rewrite.
fn dotdot_pass_exec(cs: &Vec<char>) -> (r: Vec<char>)
    ensures
        r@ == dotdot_pass(cs@),
{
    let n = cs.len();
    let mut out: Vec<char> = Vec::new();
    let mut i: usize = 0;
    proof {
        assert(cs@.skip(0) =~= cs@);
        assert(out@ + dotdot_pass(cs@) =~= dotdot_pass(cs@));
    }
    while i < n
        invariant
            i <= n,
            n == cs@.len(),
            dotdot_pass(cs@) == out@ + dotdot_pass(cs@.skip(i as int)),
        decreases n - i,
    {
        let c = cs[i];
        if c == '.' && i + 1 < n && cs[i + 1] == '.' {
            proof {
                let t = cs@.skip(i as int);
                assert(t[0] == '.' && t[1] == '.');
                assert(t.skip(2) =~= cs@.skip(i as int + 2));
                assert(out@ + (seq!['_'] + dotdot_pass(t.skip(2))) =~= out@.push('_')
                    + dotdot_pass(cs@.skip(i as int + 2)));
            }
            out.push('_');
            i = i + 2;
        } else {
            proof {
                let t = cs@.skip(i as int);
                assert(t[0] == cs@[i as int]);
                assert(!(t.len() >= 2 && t[0] == '.' && t[1] == '.')) by {
                    if i + 1 < n {
                        assert(t[1] == cs@[i as int + 1]);
                    }
                }
                assert(t.skip(1) =~= cs@.skip(i as int + 1));
                assert(out@ + (seq![t[0]] + dotdot_pass(t.skip(1))) =~= out@.push(cs@[i as int])
                    + dotdot_pass(cs@.skip(i as int + 1)));
            }
            out.push(c);
            i = i + 1;
        }
    }
    proof {
        assert(cs@.skip(n as int) =~= Seq::<char>::empty());
        assert(out@ + Seq::<char>::empty() =~= out@);
    }
    out
}

/// A filename may not be empty, contain a path separator, or contain `..`.
pub fn validate_filename(filename: &str) -> (r: bool)
    ensures
        r == (filename@.len() > 0 && (forall|i: int|
            0 <= i < filename@.len() ==> #[trigger] filename@[i] != '/' && filename@[i] != '\\')
            && (forall|i: int|
            0 <= i < filename@.len() - 1 ==> !(#[trigger] filename@[i] == '.' && filename@[i + 1]
                == '.'))),
{
    let n = filename.unicode_len();
    if n == 0 {
        return false;
    }
    let mut i: usize = 0;
    while i < n
        invariant
            i <= n,
            n == filename@.len(),
            forall|j: int| 0 <= j < i ==> #[trigger] filename@[j] != '/' && filename@[j] != '\\',
            forall|j: int|
                0 <= j < i - 1 ==> !(#[trigger] filename@[j] == '.' && filename@[j + 1] == '.'),
        decreases n - i,
    {
        let c = filename.get_char(i);
        if c == '/' || c == '\\' {
            return false;
        }
        if i > 0 && c == '.' && filename.get_char(i - 1) == '.' {
            return false;
        }
        i = i + 1;
    }
    true
}

/// Value of one decimal digit character.
pub open spec fn digit_val(c: char) -> nat {
    (c as nat - '0' as nat) as nat
}

/// Value of an all-digit text.
pub open spec fn dec_val(s: Seq<char>) -> nat
    decreases s.len(),
{
    if s.len() == 0 {
        0
    } else {
        dec_val(s.drop_last()) * 10 + digit_val(s.last())
    }
}

/// The digits of a numeral, an optional leading plus sign stripped.
pub open spec fn numeral_body(s: Seq<char>) -> Seq<char> {
    if s.len() > 0 && s[0] == '+' {
        s.drop_first()
    } else {
        s
    }
}

/// The numeral syntax the standard parser accepts: an optional plus sign,
/// then at least one decimal digit.
pub open spec fn is_numeral(s: Seq<char>) -> bool {
    numeral_body(s).len() > 0 && (forall|i: int|
        0 <= i < numeral_body(s).len() ==> is_digit(#[trigger] numeral_body(s)[i]))
}

pub open spec fn numeral_val(s: Seq<char>) -> nat {
    dec_val(numeral_body(s))
}

/// A prefix of a digit string never exceeds the whole string's value.
proof fn lemma_dec_val_prefix(t: Seq<char>, i: int)
    requires
        0 <= i <= t.len(),
    ensures
        dec_val(t.take(i)) <= dec_val(t),
    decreases t.len() - i,
{
    if i < t.len() {
        assert(t.take(i + 1).drop_last() =~= t.take(i));
        assert(t.take(i + 1).last() == t[i]);
        assert(dec_val(t.take(i + 1)) == dec_val(t.take(i)) * 10 + digit_val(t[i]));
        assert(dec_val(t.take(i)) * 10 >= dec_val(t.take(i))) by (nonlinear_arith);
        lemma_dec_val_prefix(t, i + 1);
    } else {
        assert(t.take(i) =~= t);
    }
}

/// Parse a number the way the standard library does: an optional plus sign,
/// then digits; absent on any other character or when the value does not
/// fit the machine word.
pub fn parse_usize(s: &str) -> (r: Option<usize>)
    ensures
        match r {
            Some(v) => is_numeral(s@) && v as nat == numeral_val(s@),
            None => !is_numeral(s@) || numeral_val(s@) > usize::MAX as nat,
        },
{
    let n = s.unicode_len();
    let start: usize = if n > 0 && s.get_char(0) == '+' {
        1
    } else {
        0
    };
    let ghost body = numeral_body(s@);
    proof {
        assert(body =~= s@.subrange(start as int, n as int));
    }
    if n == start {
        return None;
    }
    let mut acc: u128 = 0;
    let mut i: usize = start;
    proof {
        assert(body.take(0) =~= Seq::<char>::empty());
    }
    while i < n
        invariant
            start <= i <= n,
            n == s@.len(),
            n > start,
            body == numeral_body(s@),
            body == s@.subrange(start as int, n as int),
            acc as nat == dec_val(body.take(i - start)),
            acc <= usize::MAX as u128,
            forall|j: int| 0 <= j < i - start ==> is_digit(#[trigger] body[j]),
        decreases n - i,
    {
        let c = s.get_char(i);
        proof {
            assert(body[i - start] == s@[i as int]);
        }
        if !digit_exec(c) {
            return None;
        }
        let d: u128 = (c as u32 - 48) as u128;
        proof {
            assert(d as nat == digit_val(s@[i as int]));
            assert(body.take(i - start + 1).drop_last() =~= body.take(i - start));
            assert(body.take(i - start + 1).last() == body[i - start]);
        }
        let next: u128 = acc * 10 + d;
        if next > usize::MAX as u128 {
            proof {
                if is_numeral(s@) {
                    lemma_dec_val_prefix(body, i - start + 1);
                    assert(dec_val(body.take(i - start + 1)) == next as nat);
                }
            }
            return None;
        }
        acc = next;
        i = i + 1;
    }
    proof {
        assert(body.take(n - start) =~= body);
    }
    Some(acc as usize)
}

} // verus!
